//! Slash-separated relative paths: file names and extensions as `std::path`
//! reads them on Unix.

use vstd::prelude::*;

use crate::text::{chars_of, string_range};

verus! {

/// The position of the last `c` in `s`, or -1.
pub open spec fn last_index(s: Seq<char>, c: char) -> int
    decreases s.len(),
{
    if s.len() == 0 {
        -1
    } else if s.last() == c {
        s.len() - 1
    } else {
        last_index(s.drop_last(), c)
    }
}

/// Where the last occurrence of a character lies.
pub proof fn lemma_last_index(s: Seq<char>, c: char)
    ensures
        -1 <= last_index(s, c) < s.len(),
        last_index(s, c) >= 0 ==> s[last_index(s, c)] == c,
        forall|i: int| last_index(s, c) < i < s.len() ==> s[i] != c,
    decreases s.len(),
{
    if s.len() > 0 && s.last() != c {
        lemma_last_index(s.drop_last(), c);
        assert forall|i: int| last_index(s, c) < i < s.len() implies s[i] != c by {
            if i < s.len() - 1 {
                assert(s.drop_last()[i] == s[i]);
            }
        }
    }
}

/// The last component of a path that is neither empty nor `.`, if any.
pub open spec fn last_component(s: Seq<char>) -> Option<Seq<char>>
    decreases s.len(),
{
    if s.len() == 0 {
        None
    } else {
        let k = last_index(s, '/');
        let segment = s.subrange(k + 1, s.len() as int);
        if segment.len() == 0 || segment == seq!['.'] {
            if k < 0 {
                None
            } else {
                proof {
                    lemma_last_index(s, '/');
                }
                last_component(s.take(k))
            }
        } else {
            proof {
                lemma_last_index(s, '/');
            }
            Some(segment)
        }
    }
}

/// `Path::file_name`: the last component, unless it is `..`.
pub open spec fn file_name_spec(path: Seq<char>) -> Option<Seq<char>> {
    match last_component(path) {
        Some(name) => if name == seq!['.', '.'] {
            None
        } else {
            Some(name)
        },
        None => None,
    }
}

/// `Path::extension`: what follows the last `.` of the file name, unless
/// that `.` begins the name.
pub open spec fn extension_spec(path: Seq<char>) -> Option<Seq<char>> {
    match file_name_spec(path) {
        Some(name) => if last_index(name, '.') > 0 {
            Some(name.skip(last_index(name, '.') + 1))
        } else {
            None
        },
        None => None,
    }
}

/// The position of the last `c` among the first `end` characters, or `end` if none.
pub fn find_last(chars: &Vec<char>, end: usize, c: char) -> (result: Option<usize>)
    requires
        end <= chars@.len(),
    ensures
        match result {
            Some(k) => k == last_index(chars@.take(end as int), c) && k < end,
            None => last_index(chars@.take(end as int), c) == -1,
        },
{
    proof {
        lemma_last_index(chars@.take(end as int), c);
    }
    let mut i = end;
    while i > 0
        invariant
            i <= end <= chars@.len(),
            last_index(chars@.take(end as int), c) == last_index(chars@.take(i as int), c),
        decreases i,
    {
        proof {
            assert(chars@.take(i as int).drop_last() =~= chars@.take(i - 1));
        }
        if chars[i - 1] == c {
            return Some(i - 1);
        }
        i = i - 1;
    }
    None
}

/// The file name of a path.
pub fn file_name(path: &str) -> (result: Option<String>)
    ensures
        match result {
            Some(name) => file_name_spec(path@) == Some(name@),
            None => file_name_spec(path@) is None,
        },
{
    let chars = chars_of(path);
    let mut end = chars.len();
    proof {
        assert(chars@.take(end as int) =~= chars@);
    }
    loop
        invariant
            end <= chars@.len(),
            chars@ == path@,
            last_component(chars@.take(end as int)) == last_component(path@),
        decreases end,
    {
        if end == 0 {
            return None;
        }
        let ghost s = chars@.take(end as int);
        let slash = find_last(&chars, end, '/');
        let start = match slash {
            Some(k) => k + 1,
            None => 0,
        };
        proof {
            lemma_last_index(s, '/');
        }
        let empty_or_dot = start == end || (start + 1 == end && chars[start] == '.');
        proof {
            let segment = s.subrange(start as int, end as int);
            if start + 1 == end && chars@[start as int] == '.' {
                assert(segment =~= seq!['.']);
            }
            if !(start == end || (start + 1 == end && chars@[start as int] == '.')) && segment.len() == 1 {
                assert(segment != seq!['.']) by {
                    assert(segment[0] == chars@[start as int]);
                }
            }
        }
        if !empty_or_dot {
            let name = string_range(chars.as_slice(), start, end);
            proof {
                assert(name@ =~= s.subrange(start as int, end as int));
            }
            if end - start == 2 && chars[start] == '.' && chars[start + 1] == '.' {
                proof {
                    assert(name@ =~= seq!['.', '.']);
                }
                return None;
            }
            proof {
                if name@ == seq!['.', '.'] {
                    assert(name@[0] == chars@[start as int]);
                    assert(name@[1] == chars@[start + 1]);
                }
            }
            return Some(name);
        }
        match slash {
            None => {
                return None;
            },
            Some(k) => {
                proof {
                    assert(s.take(k as int) =~= chars@.take(k as int));
                }
                end = k;
            },
        }
    }
}

/// The extension of a path's file name.
pub fn extension(path: &str) -> (result: Option<String>)
    ensures
        match result {
            Some(ext) => extension_spec(path@) == Some(ext@),
            None => extension_spec(path@) is None,
        },
{
    match file_name(path) {
        None => None,
        Some(name) => {
            let chars = chars_of(name.as_str());
            proof {
                assert(chars@.take(chars@.len() as int) =~= chars@);
            }
            match find_last(&chars, chars.len(), '.') {
                Some(k) => {
                    if k > 0 {
                        let ext = string_range(chars.as_slice(), k + 1, chars.len());
                        proof {
                            assert(ext@ =~= name@.skip(k + 1));
                        }
                        Some(ext)
                    } else {
                        None
                    }
                },
                None => None,
            }
        },
    }
}

} // verus!
