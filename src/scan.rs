use vstd::prelude::*;
use vstd::string::*;

verus! {

/// A name is hidden when it starts with a dot.
pub open spec fn hidden(name: Seq<char>) -> bool {
    name.len() > 0 && name[0] == '.'
}

/// The code of `c` with ASCII upper-case letters taken to lower case.
pub open spec fn folded_code(c: char) -> u32 {
    if 65 <= (c as u32) <= 90 {
        (c as u32 + 32) as u32
    } else {
        c as u32
    }
}

/// `a` and `b` are equal up to the case of ASCII letters.
pub open spec fn same_ignoring_ascii_case(a: Seq<char>, b: Seq<char>) -> bool {
    a.len() == b.len() && forall|i: int| 0 <= i < a.len() ==> folded_code(#[trigger] a[i]) == folded_code(b[i])
}

/// Index of the last dot of `s`, or -1 when it has none.
pub open spec fn last_dot(s: Seq<char>) -> int
    decreases s.len(),
{
    if s.len() == 0 {
        -1
    } else if s.last() == '.' {
        s.len() - 1
    } else {
        last_dot(s.drop_last())
    }
}

/// The extension of a file name: what follows its last dot, unless it has no
/// dot or its only dot is its first character.
pub open spec fn extension(name: Seq<char>) -> Option<Seq<char>> {
    if last_dot(name) <= 0 {
        None
    } else {
        Some(name.subrange(last_dot(name) + 1, name.len() as int))
    }
}

/// A file is indexed when its name is not hidden and its extension is one of
/// `accepted`, up to the case of ASCII letters.
pub open spec fn accepted_file(name: Seq<char>, accepted: Seq<Seq<char>>) -> bool {
    &&& !hidden(name)
    &&& extension(name) matches Some(e)
    &&& exists|j: int| 0 <= j < accepted.len() && same_ignoring_ascii_case(e, #[trigger] accepted[j])
}

proof fn lemma_last_dot_range(s: Seq<char>)
    ensures
        -1 <= last_dot(s) < s.len(),
        last_dot(s) >= 0 ==> s[last_dot(s)] == '.',
    decreases s.len(),
{
    if s.len() > 0 && s.last() != '.' {
        lemma_last_dot_range(s.drop_last());
    }
}

/// Whether a name is hidden.
pub fn is_hidden(name: &str) -> (r: bool)
    ensures
        r == hidden(name@),
{
    name.unicode_len() > 0 && name.get_char(0) == '.'
}

/// Whether the scan enters a directory of this name: it does unless the name
/// is hidden.
pub fn enters_dir(name: &str) -> (r: bool)
    ensures
        r == !hidden(name@),
{
    !is_hidden(name)
}

/// Whether `a` and `b` are equal up to the case of ASCII letters.
pub fn eq_ignore_ascii_case(a: &str, b: &str) -> (r: bool)
    ensures
        r == same_ignoring_ascii_case(a@, b@),
{
    let n = a.unicode_len();
    if n != b.unicode_len() {
        return false;
    }
    for i in 0..n
        invariant
            n == a@.len(),
            n == b@.len(),
            forall|j: int| 0 <= j < i ==> folded_code(#[trigger] a@[j]) == folded_code(b@[j]),
    {
        let x = a.get_char(i) as u32;
        let y = b.get_char(i) as u32;
        let fx: u32 = if 65 <= x && x <= 90 { x + 32 } else { x };
        let fy: u32 = if 65 <= y && y <= 90 { y + 32 } else { y };
        if fx != fy {
            return false;
        }
    }
    true
}

/// The extension of a file name, as `extension` states it.
pub fn extension_of(name: &str) -> (r: Option<&str>)
    ensures
        r matches Some(e) ==> extension(name@) == Some(e@),
        r is None ==> extension(name@) is None,
{
    let n = name.unicode_len();
    let mut i: usize = n;
    proof {
        assert(name@.take(n as int) =~= name@);
    }
    while i > 0
        invariant
            i <= n,
            n == name@.len(),
            last_dot(name@) == last_dot(name@.take(i as int)),
        decreases i,
    {
        proof {
            assert(name@.take(i as int).drop_last() =~= name@.take(i - 1));
        }
        if name.get_char(i - 1) == '.' {
            proof {
                assert(name@.take(i as int).last() == name@[i - 1]);
            }
            if i == 1 {
                return None;
            }
            return Some(name.substring_char(i, n));
        }
        proof {
            assert(name@.take(i as int).last() == name@[i - 1]);
        }
        i = i - 1;
    }
    None
}

/// Whether the scan indexes a file of this name, given the accepted
/// extensions.
pub fn is_accepted_file(name: &str, accepted: &Vec<String>) -> (r: bool)
    ensures
        r == accepted_file(name@, accepted@.map_values(|a: String| a@)),
{
    if is_hidden(name) {
        return false;
    }
    let ext = match extension_of(name) {
        Some(e) => e,
        None => {
            return false;
        },
    };
    let ghost views = accepted@.map_values(|a: String| a@);
    for j in 0..accepted.len()
        invariant
            views == accepted@.map_values(|a: String| a@),
            extension(name@) == Some(ext@),
            !hidden(name@),
            forall|k: int| 0 <= k < j ==> !same_ignoring_ascii_case(ext@, #[trigger] views[k]),
    {
        if eq_ignore_ascii_case(ext, accepted[j].as_str()) {
            proof {
                assert(same_ignoring_ascii_case(ext@, views[j as int]));
                assert(0 <= j < views.len());
                assert(exists|k: int| 0 <= k < views.len() && same_ignoring_ascii_case(ext@, #[trigger] views[k]));
            }
            return true;
        }
    }
    false
}

} // verus!
