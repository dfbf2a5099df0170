//! Extension keys of file names.
use vstd::prelude::*;
use vstd::string::{StrSliceExecFns, StringExecFns};

verus! {

/// What `str::to_lowercase` makes of a sequence of characters.
pub uninterp spec fn lower_of(s: Seq<char>) -> Seq<char>;

/// Index of the last `.` among the first `n` characters of `s`, or -1.
pub open spec fn last_dot(s: Seq<char>, n: int) -> int
    decreases n,
{
    if n <= 0 {
        -1
    } else if s[n - 1] == '.' {
        n - 1
    } else {
        last_dot(s, n - 1)
    }
}

/// The extension of a file name: what follows its last dot, where that dot
/// is not the name's first character; `..` has none.
pub open spec fn ext_of(name: Seq<char>) -> Option<Seq<char>> {
    let d = last_dot(name, name.len() as int);
    if d <= 0 || name == seq!['.', '.'] {
        None
    } else {
        Some(name.subrange(d + 1, name.len() as int))
    }
}

/// The grouping key of a file name: `.` and the lowercased extension, or
/// empty where the name has no extension.
pub open spec fn key_of(name: Seq<char>) -> Seq<char> {
    match ext_of(name) {
        Some(e) => seq!['.'] + lower_of(e),
        None => Seq::empty(),
    }
}

/// Relies on `str::to_lowercase`: the result depends on the characters alone.
#[verifier::external_body]
fn lowercase(s: &str) -> (r: String)
    ensures
        r@ == lower_of(s@),
{
    s.to_lowercase()
}

/// The extension of `name`, as it stands (case kept).
pub fn extension(name: &str) -> (r: Option<String>)
    ensures
        match r {
            Some(e) => ext_of(name@) == Some(e@),
            None => ext_of(name@) is None,
        },
{
    let n = name.unicode_len();
    let mut i: usize = n;
    while i > 0
        invariant
            i <= n,
            n == name@.len(),
            last_dot(name@, n as int) == last_dot(name@, i as int),
        ensures
            i == 0 || name@[i - 1] == '.',
        decreases i,
    {
        if name.get_char(i - 1) == '.' {
            break;
        }
        i = i - 1;
    }
    // `i` is one past the last dot, or 0 where there is none.
    assert(i > 0 ==> last_dot(name@, i as int) == i - 1);
    if i <= 1 {
        return None;
    }
    if n == 2 && name.get_char(0) == '.' {
        assert(name@ =~= seq!['.', '.']);
        return None;
    }
    assert(name@ != seq!['.', '.']) by {
        if name@ == seq!['.', '.'] {
            assert(name@[0] == '.');
        }
    }
    Some(String::from_str(name.substring_char(i, n)))
}

/// The key made of an already lowercased extension: a dot before it.
pub fn dotted_key(lowered: &str) -> (r: String)
    ensures
        r@ == seq!['.'] + lowered@,
{
    proof {
        reveal_strlit(".");
    }
    String::from_str(".").concat(lowered)
}

/// The grouping key of a file name.
pub fn extension_key(name: &str) -> (r: String)
    ensures
        r@ == key_of(name@),
{
    match extension(name) {
        Some(e) => {
            let lowered = lowercase(e.as_str());
            dotted_key(lowered.as_str())
        },
        None => String::new(),
    }
}

} // verus!
