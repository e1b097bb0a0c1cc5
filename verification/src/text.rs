//! Character-level helpers shared by the parsers and validators.

use vstd::prelude::*;
use vstd::std_specs::iter::IteratorSpec;

verus! {

/// Collect the characters of `s` in order.
pub fn chars_of(s: &str) -> (result: Vec<char>)
    ensures
        result@ == s@,
{
    let mut result: Vec<char> = Vec::new();
    let mut it = s.chars();
    proof {
        broadcast use vstd::string::group_string_axioms;
        assert(s@.skip(0) =~= s@);
    }
    loop
        invariant
            it.remaining() == s@.skip(result@.len() as int),
            result@ == s@.take(result@.len() as int),
            result@.len() <= s@.len(),
        ensures
            result@ =~= s@,
        decreases s@.len() - result@.len(),
    {
        match it.next() {
            Some(c) => {
                result.push(c);
            },
            None => {
                assert(s@.skip(result@.len() as int).len() == 0);
                break;
            },
        }
    }
    result
}


/// Append one character to a string.
#[verifier::external_body]
pub fn push_char(s: &mut String, c: char)
    ensures
        final(s)@ == old(s)@.push(c),
{
    s.push(c);
}

/// Build an owned string from a slice of characters.
pub fn string_of(chars: &[char]) -> (result: String)
    ensures
        result@ == chars@,
{
    let mut result = String::new();
    let mut i: usize = 0;
    while i < chars.len()
        invariant
            i <= chars@.len(),
            result@ == chars@.take(i as int),
        decreases chars@.len() - i,
    {
        push_char(&mut result, chars[i]);
        i = i + 1;
        assert(chars@.take(i as int) =~= chars@.take((i - 1) as int).push(chars@[i - 1]));
    }
    assert(chars@.take(i as int) =~= chars@);
    result
}

/// Characters `from..to` of `chars` as an owned string.
pub fn string_range(chars: &[char], from: usize, to: usize) -> (result: String)
    requires
        from <= to <= chars@.len(),
    ensures
        result@ == chars@.subrange(from as int, to as int),
{
    let mut result = String::new();
    let mut i: usize = from;
    while i < to
        invariant
            from <= i <= to <= chars@.len(),
            result@ == chars@.subrange(from as int, i as int),
        decreases to - i,
    {
        push_char(&mut result, chars[i]);
        i = i + 1;
        assert(chars@.subrange(from as int, i as int) =~= chars@.subrange(from as int, (i - 1) as int).push(chars@[i - 1]));
    }
    result
}

/// Whether two character slices hold the same characters.
pub fn chars_eq(a: &[char], b: &[char]) -> (result: bool)
    ensures
        result == (a@ == b@),
{
    if a.len() != b.len() {
        return false;
    }
    let mut i: usize = 0;
    while i < a.len()
        invariant
            a@.len() == b@.len(),
            i <= a@.len(),
            forall|j: int| 0 <= j < i ==> a@[j] == b@[j],
        decreases a@.len() - i,
    {
        if a[i] != b[i] {
            return false;
        }
        i = i + 1;
    }
    assert(a@ =~= b@);
    true
}

/// Whether the characters of `a` spell exactly the string `b`.
pub fn eq_str(a: &[char], b: &str) -> (result: bool)
    ensures
        result == (a@ == b@),
{
    let other = chars_of(b);
    chars_eq(a, other.as_slice())
}

/// Whether `prefix` begins `s`.
pub open spec fn is_prefix(prefix: Seq<char>, s: Seq<char>) -> bool {
    prefix.len() <= s.len() && s.take(prefix.len() as int) == prefix
}

/// Whether the characters of `a` begin with the string `prefix`.
pub fn starts_with_str(a: &[char], prefix: &str) -> (result: bool)
    ensures
        result == is_prefix(prefix@, a@),
{
    let p = chars_of(prefix);
    if p.len() > a.len() {
        return false;
    }
    let mut i: usize = 0;
    while i < p.len()
        invariant
            p@ == prefix@,
            p@.len() <= a@.len(),
            i <= p@.len(),
            forall|j: int| 0 <= j < i ==> a@[j] == p@[j],
        decreases p@.len() - i,
    {
        if a[i] != p[i] {
            assert(a@.take(p@.len() as int)[i as int] != p@[i as int]);
            return false;
        }
        i = i + 1;
    }
    assert(a@.take(p@.len() as int) =~= p@);
    true
}

/// Whether `suffix` ends `s`.
pub open spec fn is_suffix(suffix: Seq<char>, s: Seq<char>) -> bool {
    suffix.len() <= s.len() && s.skip(s.len() - suffix.len()) == suffix
}

/// Whether the characters of `a` end with the string `suffix`.
pub fn ends_with_str(a: &[char], suffix: &str) -> (result: bool)
    ensures
        result == is_suffix(suffix@, a@),
{
    let p = chars_of(suffix);
    if p.len() > a.len() {
        return false;
    }
    let offset = a.len() - p.len();
    let mut i: usize = 0;
    while i < p.len()
        invariant
            p@ == suffix@,
            p@.len() <= a@.len(),
            offset == a@.len() - p@.len(),
            a@.len() == a.len(),
            i <= p@.len(),
            forall|j: int| 0 <= j < i ==> a@[offset + j] == p@[j],
        decreases p@.len() - i,
    {
        if a[offset + i] != p[i] {
            assert(a@.skip(offset as int)[i as int] != p@[i as int]);
            return false;
        }
        i = i + 1;
    }
    assert(a@.skip(offset as int) =~= p@);
    true
}

/// The number of bytes of the UTF-8 encoding of `c`.
pub open spec fn utf8_width(c: char) -> nat {
    if (c as u32) < 0x80 {
        1
    } else if (c as u32) < 0x800 {
        2
    } else if (c as u32) < 0x10000 {
        3
    } else {
        4
    }
}

/// The number of bytes of the UTF-8 encoding of a character sequence.
pub open spec fn utf8_len(s: Seq<char>) -> nat
    decreases s.len(),
{
    if s.len() == 0 {
        0
    } else {
        utf8_len(s.drop_last()) + utf8_width(s.last())
    }
}

/// `utf8_len` of a sequence extended by one character.
pub proof fn lemma_utf8_len_push(s: Seq<char>, c: char)
    ensures
        utf8_len(s.push(c)) == utf8_len(s) + utf8_width(c),
{
    assert(s.push(c).drop_last() =~= s);
}

/// The UTF-8 width of a character, as `char::len_utf8` computes it.
pub fn len_utf8(c: char) -> (result: usize)
    ensures
        result == utf8_width(c),
{
    let code = c as u32;
    if code < 0x80 {
        1
    } else if code < 0x800 {
        2
    } else if code < 0x10000 {
        3
    } else {
        4
    }
}

/// Unicode `White_Space`, the property `char::is_whitespace` tests.
pub open spec fn is_white_space(c: char) -> bool {
    let v = c as u32;
    (0x09 <= v <= 0x0d) || v == 0x20 || v == 0x85 || v == 0xa0 || v == 0x1680 || (0x2000 <= v
        <= 0x200a) || v == 0x2028 || v == 0x2029 || v == 0x202f || v == 0x205f || v == 0x3000
}

/// Whether `c` is Unicode white space.
pub fn is_whitespace(c: char) -> (result: bool)
    ensures
        result == is_white_space(c),
{
    let v = c as u32;
    (0x09 <= v && v <= 0x0d) || v == 0x20 || v == 0x85 || v == 0xa0 || v == 0x1680 || (0x2000
        <= v && v <= 0x200a) || v == 0x2028 || v == 0x2029 || v == 0x202f || v == 0x205f || v
        == 0x3000
}

/// Whether `c` is an ASCII letter or digit.
pub open spec fn is_ascii_alnum(c: char) -> bool {
    ('a' <= c && c <= 'z') || ('A' <= c && c <= 'Z') || ('0' <= c && c <= '9')
}

/// Whether `c` is an ASCII letter or digit.
pub fn ascii_alnum(c: char) -> (result: bool)
    ensures
        result == is_ascii_alnum(c),
{
    ('a' <= c && c <= 'z') || ('A' <= c && c <= 'Z') || ('0' <= c && c <= '9')
}


/// The result of a three-way comparison.
#[derive(Clone, Copy, Debug, PartialEq, Eq, Structural)]
pub enum Order {
    Less,
    Equal,
    Greater,
}

/// Lexicographic order of character sequences, the order `str` has in Rust
/// (UTF-8 preserves the order of scalar values): -1, 0 or 1.
pub open spec fn lex_order(a: Seq<char>, b: Seq<char>) -> int
    decreases a.len(),
{
    if a.len() == 0 && b.len() == 0 {
        0
    } else if a.len() == 0 {
        -1
    } else if b.len() == 0 {
        1
    } else if a[0] < b[0] {
        -1
    } else if a[0] > b[0] {
        1
    } else {
        lex_order(a.drop_first(), b.drop_first())
    }
}

/// The spec value of an `Order`.
pub open spec fn order_value(o: Order) -> int {
    match o {
        Order::Less => -1,
        Order::Equal => 0,
        Order::Greater => 1,
    }
}

proof fn lemma_lex_order_skip(a: Seq<char>, b: Seq<char>, i: int)
    requires
        0 <= i < a.len(),
        i < b.len(),
        a[i] == b[i],
    ensures
        lex_order(a.skip(i), b.skip(i)) == lex_order(a.skip(i + 1), b.skip(i + 1)),
{
    assert(a.skip(i).drop_first() =~= a.skip(i + 1));
    assert(b.skip(i).drop_first() =~= b.skip(i + 1));
}

/// Lexicographic comparison of two character sequences.
pub fn compare_chars(a: &[char], b: &[char]) -> (result: Order)
    ensures
        order_value(result) == lex_order(a@, b@),
{
    let mut i: usize = 0;
    proof {
        assert(a@.skip(0) =~= a@);
        assert(b@.skip(0) =~= b@);
    }
    while i < a.len() && i < b.len()
        invariant
            i <= a@.len(),
            i <= b@.len(),
            lex_order(a@, b@) == lex_order(a@.skip(i as int), b@.skip(i as int)),
        decreases a@.len() - i,
    {
        if a[i] < b[i] {
            return Order::Less;
        }
        if a[i] > b[i] {
            return Order::Greater;
        }
        proof {
            lemma_lex_order_skip(a@, b@, i as int);
        }
        i = i + 1;
    }
    if a.len() == b.len() {
        Order::Equal
    } else if i == a.len() {
        Order::Less
    } else {
        Order::Greater
    }
}

/// Lexicographic comparison of two strings.
pub fn compare_str(a: &str, b: &str) -> (result: Order)
    ensures
        order_value(result) == lex_order(a@, b@),
{
    let x = chars_of(a);
    let y = chars_of(b);
    compare_chars(x.as_slice(), y.as_slice())
}


/// `lex_order` is antisymmetric and only equal sequences are equal in it.
pub proof fn lemma_lex_order_antisym(a: Seq<char>, b: Seq<char>)
    ensures
        lex_order(a, b) == -lex_order(b, a),
        lex_order(a, b) == 0 <==> a == b,
    decreases a.len(),
{
    if a.len() > 0 && b.len() > 0 && a[0] == b[0] {
        lemma_lex_order_antisym(a.drop_first(), b.drop_first());
        if a.drop_first() == b.drop_first() {
            assert(a =~= seq![a[0]] + a.drop_first());
            assert(b =~= seq![b[0]] + b.drop_first());
        }
    }
    if a.len() == 0 && b.len() == 0 {
        assert(a =~= b);
    }
}

/// `lex_order` is transitive.
pub proof fn lemma_lex_order_trans(a: Seq<char>, b: Seq<char>, c: Seq<char>)
    requires
        lex_order(a, b) < 0,
        lex_order(b, c) < 0,
    ensures
        lex_order(a, c) < 0,
    decreases a.len(),
{
    if a.len() > 0 && b.len() > 0 && c.len() > 0 && a[0] == b[0] && b[0] == c[0] {
        lemma_lex_order_trans(a.drop_first(), b.drop_first(), c.drop_first());
    }
}

/// Whether the views of `v` are strictly increasing in lexicographic order.
pub open spec fn strictly_sorted(v: Seq<Seq<char>>) -> bool {
    forall|i: int, j: int| 0 <= i < j < v.len() ==> lex_order(#[trigger] v[i], #[trigger] v[j]) < 0
}

/// The character views of a vector of strings.
pub open spec fn string_views(v: Seq<String>) -> Seq<Seq<char>> {
    v.map_values(|s: String| s@)
}

/// Insert `value` into a strictly sorted vector of strings unless present.
pub fn insert_sorted(v: &mut Vec<String>, value: String)
    requires
        strictly_sorted(string_views(old(v)@)),
    ensures
        strictly_sorted(string_views(final(v)@)),
        string_views(final(v)@).to_set() == string_views(old(v)@).to_set().insert(value@),
        string_views(old(v)@).contains(value@) ==> final(v)@ == old(v)@,
{
    let ghost old_views = string_views(v@);
    let mut i: usize = 0;
    while i < v.len()
        invariant
            i <= v@.len(),
            string_views(v@) == old_views,
            strictly_sorted(old_views),
            forall|k: int| 0 <= k < i ==> lex_order(#[trigger] old_views[k], value@) < 0,
        ensures
            i <= v@.len(),
            string_views(v@) == old_views,
            forall|k: int| 0 <= k < i ==> lex_order(#[trigger] old_views[k], value@) < 0,
            i < v@.len() ==> lex_order(old_views[i as int], value@) > 0,
        decreases v@.len() - i,
    {
        let o = compare_str(v[i].as_str(), value.as_str());
        match o {
            Order::Less => {
                i = i + 1;
            },
            Order::Equal => {
                proof {
                    lemma_lex_order_antisym(v@[i as int]@, value@);
                    assert(old_views.contains(value@)) by {
                        assert(old_views[i as int] == value@);
                    }
                }
                return;
            },
            Order::Greater => {
                break;
            },
        }
    }
    proof {
        assert forall|k: int| i <= k < old_views.len() implies lex_order(value@, #[trigger] old_views[k]) < 0 by {
            lemma_lex_order_antisym(old_views[i as int], value@);
            if k > i {
                lemma_lex_order_trans(value@, old_views[i as int], old_views[k]);
            }
        }
        assert(!old_views.contains(value@)) by {
            if old_views.contains(value@) {
                let k = choose|k: int| 0 <= k < old_views.len() && old_views[k] == value@;
                lemma_lex_order_antisym(value@, value@);
            }
        }
    }
    v.insert(i, value);
    proof {
        let nv = string_views(v@);
        assert(nv =~= old_views.insert(i as int, value@));
        assert forall|a: int, b: int| 0 <= a < b < nv.len() implies lex_order(#[trigger] nv[a], #[trigger] nv[b]) < 0 by {
            if b == i {
                assert(nv[a] == old_views[a]);
            } else if a == i {
                assert(nv[b] == old_views[b - 1]);
            } else if a < i && b > i {
                assert(nv[a] == old_views[a]);
                assert(nv[b] == old_views[b - 1]);
                lemma_lex_order_trans(old_views[a], value@, old_views[b - 1]);
            } else if b < i {
                assert(nv[a] == old_views[a] && nv[b] == old_views[b]);
            } else {
                assert(nv[a] == old_views[a - 1] && nv[b] == old_views[b - 1]);
            }
        }
        assert(nv.to_set() =~= old_views.to_set().insert(value@)) by {
            assert forall|x: Seq<char>| nv.to_set().contains(x) <==> old_views.to_set().insert(value@).contains(x) by {
                if nv.contains(x) {
                    let k = choose|k: int| 0 <= k < nv.len() && nv[k] == x;
                    if k < i {
                        assert(old_views[k] == x);
                    } else if k > i {
                        assert(old_views[k - 1] == x);
                    }
                }
                if old_views.contains(x) {
                    let k = choose|k: int| 0 <= k < old_views.len() && old_views[k] == x;
                    if k < i {
                        assert(nv[k] == x);
                    } else {
                        assert(nv[k + 1] == x);
                    }
                }
                if x == value@ {
                    assert(nv[i as int] == x);
                }
            }
        }
    }
}


/// Copy a vector of strings.
pub fn clone_strings(v: &Vec<String>) -> (result: Vec<String>)
    ensures
        string_views(result@) == string_views(v@),
{
    let mut result: Vec<String> = Vec::new();
    let mut i: usize = 0;
    while i < v.len()
        invariant
            i <= v@.len(),
            string_views(result@) =~= string_views(v@).take(i as int),
        decreases v@.len() - i,
    {
        let item = v[i].clone();
        let ghost before = result@;
        result.push(item);
        proof {
            assert(result@ == before.push(item));
            assert(string_views(result@) =~= string_views(before).push(item@));
            assert(string_views(v@).take(i + 1) =~= string_views(v@).take(i as int).push(v@[i as int]@));
        }
        i = i + 1;
    }
    proof {
        assert(string_views(v@).take(v@.len() as int) =~= string_views(v@));
    }
    result
}

/// Position of `key` in `v`, if present.
pub fn find_string(v: &Vec<String>, key: &str) -> (result: Option<usize>)
    ensures
        result is None ==> !string_views(v@).contains(key@),
        result matches Some(i) ==> i < v@.len() && v@[i as int]@ == key@ && forall|j: int| 0 <= j < i ==> v@[j]@ != key@,
{
    let target = chars_of(key);
    let mut i: usize = 0;
    while i < v.len()
        invariant
            target@ == key@,
            i <= v@.len(),
            forall|j: int| 0 <= j < i ==> v@[j]@ != key@,
        decreases v@.len() - i,
    {
        let candidate = chars_of(v[i].as_str());
        if chars_eq(candidate.as_slice(), target.as_slice()) {
            return Some(i);
        }
        i = i + 1;
    }
    proof {
        if string_views(v@).contains(key@) {
            let j = choose|j: int| 0 <= j < string_views(v@).len() && string_views(v@)[j] == key@;
            assert(v@[j]@ == key@);
        }
    }
    None
}

/// `index_of` in a sequence after inserting a fresh element.
pub proof fn lemma_index_of_insert<A>(s: Seq<A>, i: int, x: A, y: A)
    requires
        s.no_duplicates(),
        !s.contains(x),
        0 <= i <= s.len(),
        s.contains(y) || y == x,
    ensures
        s.insert(i, x).no_duplicates(),
        s.insert(i, x).contains(y),
        y == x ==> s.insert(i, x).index_of(y) == i,
        y != x ==> s.insert(i, x).index_of(y) == (if s.index_of(y) < i {
            s.index_of(y)
        } else {
            s.index_of(y) + 1
        }),
{
    let t = s.insert(i, x);
    assert forall|a: int, b: int| 0 <= a < b < t.len() implies t[a] != t[b] by {
        if a == i {
            assert(t[b] == s[b - 1]);
        } else if b == i {
            assert(t[a] == s[a]);
        } else {
            let sa = if a < i { a } else { a - 1 };
            let sb = if b < i { b } else { b - 1 };
            assert(t[a] == s[sa] && t[b] == s[sb]);
        }
    }
    if y == x {
        assert(t[i] == x);
        t.index_of_first_ensures(y);
        assert(t.contains(y));
    } else {
        let k = s.index_of(y);
        s.index_of_first_ensures(y);
        let tk = if k < i { k } else { k + 1 };
        assert(t[tk] == y);
        assert(t.contains(y));
        t.index_of_first_ensures(y);
    }
}

/// `index_of` in a sequence after removing an element.
pub proof fn lemma_index_of_remove<A>(s: Seq<A>, i: int, y: A)
    requires
        s.no_duplicates(),
        0 <= i < s.len(),
        s.contains(y),
        y != s[i],
    ensures
        s.remove(i).no_duplicates(),
        s.remove(i).contains(y),
        s.remove(i).index_of(y) == (if s.index_of(y) < i {
            s.index_of(y)
        } else {
            s.index_of(y) - 1
        }),
{
    let t = s.remove(i);
    assert forall|a: int, b: int| 0 <= a < b < t.len() implies t[a] != t[b] by {
        let sa = if a < i { a } else { a + 1 };
        let sb = if b < i { b } else { b + 1 };
        assert(t[a] == s[sa] && t[b] == s[sb]);
    }
    let k = s.index_of(y);
    s.index_of_first_ensures(y);
    let tk = if k < i { k } else { k - 1 };
    assert(t[tk] == y);
    assert(t.contains(y));
    t.index_of_first_ensures(y);
}

/// Removing an element keeps a sequence free of repetitions.
pub proof fn lemma_remove_no_duplicates<A>(s: Seq<A>, i: int)
    requires
        s.no_duplicates(),
        0 <= i < s.len(),
    ensures
        s.remove(i).no_duplicates(),
{
    let t = s.remove(i);
    assert forall|a: int, b: int| 0 <= a < b < t.len() implies t[a] != t[b] by {
        let sa = if a < i { a } else { a + 1 };
        let sb = if b < i { b } else { b + 1 };
        assert(t[a] == s[sa] && t[b] == s[sb]);
    }
}

/// A strictly sorted sequence has no repeated element.
pub proof fn lemma_sorted_no_duplicates(v: Seq<Seq<char>>)
    requires
        strictly_sorted(v),
    ensures
        v.no_duplicates(),
{
    assert forall|a: int, b: int| 0 <= a < b < v.len() implies v[a] != v[b] by {
        lemma_lex_order_antisym(v[a], v[b]);
    }
}


/// Inserting `x` where everything before is smaller and everything after is
/// larger keeps a sequence strictly sorted.
pub proof fn lemma_sorted_insert(v: Seq<Seq<char>>, i: int, x: Seq<char>)
    requires
        strictly_sorted(v),
        0 <= i <= v.len(),
        forall|k: int| 0 <= k < i ==> lex_order(#[trigger] v[k], x) < 0,
        forall|k: int| i <= k < v.len() ==> lex_order(x, #[trigger] v[k]) < 0,
    ensures
        strictly_sorted(v.insert(i, x)),
        !v.contains(x),
{
    let nv = v.insert(i, x);
    assert forall|a: int, b: int| 0 <= a < b < nv.len() implies lex_order(#[trigger] nv[a], #[trigger] nv[b]) < 0 by {
        if b == i {
            assert(nv[a] == v[a]);
        } else if a == i {
            assert(nv[b] == v[b - 1]);
        } else if a < i && b > i {
            assert(nv[a] == v[a]);
            assert(nv[b] == v[b - 1]);
            lemma_lex_order_trans(v[a], x, v[b - 1]);
        } else if b < i {
            assert(nv[a] == v[a] && nv[b] == v[b]);
        } else {
            assert(nv[a] == v[a - 1] && nv[b] == v[b - 1]);
        }
    }
    if v.contains(x) {
        let k = choose|k: int| 0 <= k < v.len() && v[k] == x;
        lemma_lex_order_antisym(x, x);
    }
}

/// Where a value absent from a strictly sorted vector of strings belongs.
pub fn sorted_position(v: &Vec<String>, value: &str) -> (result: usize)
    requires
        strictly_sorted(string_views(v@)),
        !string_views(v@).contains(value@),
    ensures
        result <= v@.len(),
        forall|k: int| 0 <= k < result ==> lex_order(#[trigger] string_views(v@)[k], value@) < 0,
        forall|k: int| result <= k < v@.len() ==> lex_order(value@, #[trigger] string_views(v@)[k]) < 0,
{
    let ghost views = string_views(v@);
    let mut i: usize = 0;
    while i < v.len()
        invariant
            i <= v@.len(),
            views == string_views(v@),
            strictly_sorted(views),
            !views.contains(value@),
            forall|k: int| 0 <= k < i ==> lex_order(#[trigger] views[k], value@) < 0,
        ensures
            i <= v@.len(),
            forall|k: int| 0 <= k < i ==> lex_order(#[trigger] views[k], value@) < 0,
            i < v@.len() ==> lex_order(views[i as int], value@) > 0,
        decreases v@.len() - i,
    {
        match compare_str(v[i].as_str(), value) {
            Order::Less => {
                i = i + 1;
            },
            _ => {
                proof {
                    lemma_lex_order_antisym(views[i as int], value@);
                    assert(views[i as int] == v@[i as int]@);
                    if views[i as int] == value@ {
                        assert(views.contains(value@));
                    }
                }
                break;
            },
        }
    }
    proof {
        assert forall|k: int| i <= k < v@.len() implies lex_order(value@, #[trigger] views[k]) < 0 by {
            lemma_lex_order_antisym(views[i as int], value@);
            if k > i {
                lemma_lex_order_trans(value@, views[i as int], views[k]);
            }
        }
    }
    i
}

/// `s` with every non-overlapping occurrence of `pattern`, leftmost first,
/// replaced by `replacement` (the behaviour of `str::replace` for a
/// non-empty pattern).
pub open spec fn replace_spec(s: Seq<char>, pattern: Seq<char>, replacement: Seq<char>) -> Seq<char>
    decreases s.len(),
{
    if pattern.len() == 0 || s.len() < pattern.len() {
        s
    } else if s.take(pattern.len() as int) == pattern {
        replacement + replace_spec(s.skip(pattern.len() as int), pattern, replacement)
    } else {
        seq![s[0]] + replace_spec(s.skip(1), pattern, replacement)
    }
}

/// Whether `pattern` occurs in `a` at position `i`.
fn occurs_at(a: &[char], i: usize, pattern: &[char]) -> (result: bool)
    requires
        i <= a@.len(),
    ensures
        result == (i + pattern@.len() <= a@.len() && a@.skip(i as int).take(pattern@.len() as int) == pattern@),
{
    if pattern.len() > a.len() - i {
        return false;
    }
    let n: usize = a.len();
    let mut k: usize = 0;
    while k < pattern.len()
        invariant
            n == a@.len(),
            i + pattern@.len() <= a@.len(),
            k <= pattern@.len(),
            forall|j: int| 0 <= j < k ==> a@[i + j] == pattern@[j],
        decreases pattern@.len() - k,
    {
        assert(i + k < a@.len());
        if a[i + k] != pattern[k] {
            assert(a@.skip(i as int).take(pattern@.len() as int)[k as int] != pattern@[k as int]);
            return false;
        }
        k = k + 1;
    }
    assert(a@.skip(i as int).take(pattern@.len() as int) =~= pattern@);
    true
}

/// Replace every occurrence of a non-empty `pattern` in `text`.
pub fn replace_all(text: &str, pattern: &str, replacement: &str) -> (result: String)
    requires
        pattern@.len() > 0,
    ensures
        result@ == replace_spec(text@, pattern@, replacement@),
{
    let a = chars_of(text);
    let p = chars_of(pattern);
    let r = chars_of(replacement);
    let mut out = String::new();
    let mut i: usize = 0;
    proof {
        assert(a@.skip(0) =~= a@);
    }
    while i < a.len()
        invariant
            a@ == text@,
            p@ == pattern@,
            r@ == replacement@,
            p@.len() > 0,
            i <= a@.len(),
            out@ + replace_spec(a@.skip(i as int), p@, r@) == replace_spec(text@, pattern@, replacement@),
        decreases a@.len() - i,
    {
        let ghost rest = a@.skip(i as int);
        if occurs_at(a.as_slice(), i, p.as_slice()) {
            let mut k: usize = 0;
            let ghost before = out@;
            while k < r.len()
                invariant
                    k <= r@.len(),
                    out@ == before + r@.take(k as int),
                decreases r@.len() - k,
            {
                push_char(&mut out, r[k]);
                k = k + 1;
                assert(r@.take(k as int) =~= r@.take((k - 1) as int).push(r@[k - 1]));
            }
            proof {
                assert(r@.take(r@.len() as int) =~= r@);
                assert(rest.skip(p@.len() as int) =~= a@.skip(i + p@.len()));
                assert(before + replace_spec(rest, p@, r@) == before + (r@ + replace_spec(rest.skip(p@.len() as int), p@, r@)));
                assert(before + (r@ + replace_spec(rest.skip(p@.len() as int), p@, r@)) =~= (before + r@) + replace_spec(rest.skip(p@.len() as int), p@, r@));
            }
            i = i + p.len();
        } else {
            let ghost before = out@;
            push_char(&mut out, a[i]);
            proof {
                assert(rest[0] == a@[i as int]);
                assert(rest.skip(1) =~= a@.skip(i + 1));
                if rest.len() >= p@.len() {
                    assert(rest.take(p@.len() as int) != p@);
                }
                assert(before + (seq![rest[0]] + replace_spec(rest.skip(1), p@, r@)) =~= before.push(rest[0]) + replace_spec(rest.skip(1), p@, r@));
            }
            i = i + 1;
        }
    }
    proof {
        assert(a@.skip(i as int) =~= Seq::<char>::empty());
        assert(out@ + Seq::<char>::empty() =~= out@);
    }
    out
}

/// `utf8_len` taken from the front.
pub proof fn lemma_utf8_len_front(s: Seq<char>)
    requires
        s.len() > 0,
    ensures
        utf8_len(s) == utf8_width(s[0]) + utf8_len(s.drop_first()),
    decreases s.len(),
{
    if s.len() > 1 {
        lemma_utf8_len_front(s.drop_last());
        assert(s.drop_last().drop_first() =~= s.drop_first().drop_last());
        assert(s.drop_first().last() == s.last());
        assert(s.drop_last()[0] == s[0]);
        assert(utf8_len(s.drop_first()) == utf8_len(s.drop_first().drop_last()) + utf8_width(s.drop_first().last()));
        assert(utf8_len(s) == utf8_len(s.drop_last()) + utf8_width(s.last()));
    } else {
        assert(s.drop_first().len() == 0);
        assert(s.drop_last().len() == 0);
        assert(utf8_len(s.drop_first()) == 0);
        assert(utf8_len(s.drop_last()) == 0);
        assert(s.last() == s[0]);
    }
}

/// The UTF-8 encoding of a character sequence has `utf8_len` bytes.
pub proof fn lemma_utf8_len_encoded(s: Seq<char>)
    ensures
        vstd::utf8::encode_utf8(s).len() == utf8_len(s),
    decreases s.len(),
{
    if s.len() > 0 {
        lemma_utf8_len_front(s);
        lemma_utf8_len_encoded(s.drop_first());
        vstd::utf8::char_is_scalar(s[0]);
        assert(vstd::utf8::encode_scalar(s[0] as u32).len() == utf8_width(s[0]));
    }
}

/// `utf8_len` of a prefix is at most that of the whole.
pub proof fn lemma_utf8_len_prefix(s: Seq<char>, i: int)
    requires
        0 <= i <= s.len(),
    ensures
        utf8_len(s.take(i)) <= utf8_len(s),
    decreases s.len() - i,
{
    if i < s.len() {
        lemma_utf8_len_prefix(s, i + 1);
        assert(s.take(i + 1).drop_last() =~= s.take(i));
    } else {
        assert(s.take(i) =~= s);
    }
}

/// The byte offset of every character position of `text`, the end included.
pub fn byte_offsets(text: &str, chars: &Vec<char>) -> (result: Vec<usize>)
    requires
        chars@ == text@,
    ensures
        result@.len() == chars@.len() + 1,
        forall|k: int| 0 <= k <= chars@.len() ==> #[trigger] result@[k] == utf8_len(chars@.take(k)),
{
    let total = text.as_bytes().len();
    proof {
        lemma_utf8_len_encoded(text@);
        assert(chars@.take(0) =~= Seq::<char>::empty());
    }
    let mut result: Vec<usize> = Vec::new();
    let mut current: usize = 0;
    let mut k: usize = 0;
    while k < chars.len()
        invariant
            total == utf8_len(chars@),
            k <= chars@.len(),
            result@.len() == k,
            current == utf8_len(chars@.take(k as int)),
            forall|q: int| 0 <= q < k ==> #[trigger] result@[q] == utf8_len(chars@.take(q)),
        decreases chars@.len() - k,
    {
        result.push(current);
        proof {
            assert(chars@.take(k + 1) =~= chars@.take(k as int).push(chars@[k as int]));
            lemma_utf8_len_push(chars@.take(k as int), chars@[k as int]);
            lemma_utf8_len_prefix(chars@, k + 1);
        }
        current = current + len_utf8(chars[k]);
        k = k + 1;
    }
    result.push(current);
    result
}

/// Append the characters of `t` to `s`.
pub fn push_str(s: &mut String, t: &str)
    ensures
        final(s)@ == old(s)@ + t@,
{
    let chars = chars_of(t);
    let ghost start = s@;
    let mut i: usize = 0;
    while i < chars.len()
        invariant
            i <= chars@.len(),
            chars@ == t@,
            s@ == start + chars@.take(i as int),
        decreases chars@.len() - i,
    {
        push_char(s, chars[i]);
        i = i + 1;
        assert(chars@.take(i as int) =~= chars@.take((i - 1) as int).push(chars@[i - 1]));
    }
    assert(chars@.take(i as int) =~= chars@);
}

/// A character with ASCII capitals made lowercase.
pub open spec fn ascii_lower(c: char) -> char {
    if 'A' <= c && c <= 'Z' {
        ((c as u32) + 32) as char
    } else {
        c
    }
}

/// `str::eq_ignore_ascii_case`: equal once ASCII capitals are made lowercase.
pub open spec fn eq_ignore_ascii_case_spec(a: Seq<char>, b: Seq<char>) -> bool {
    a.len() == b.len() && forall|i: int| 0 <= i < a.len() ==> ascii_lower(#[trigger] a[i]) == ascii_lower(b[i])
}

fn lower_char(c: char) -> (result: char)
    ensures
        result == ascii_lower(c),
{
    if 'A' <= c && c <= 'Z' {
        ((c as u32) + 32) as u8 as char
    } else {
        c
    }
}

/// Whether `a` spells `b` up to the case of ASCII letters.
pub fn eq_ignore_ascii_case(a: &[char], b: &str) -> (result: bool)
    ensures
        result == eq_ignore_ascii_case_spec(a@, b@),
{
    let other = chars_of(b);
    if a.len() != other.len() {
        return false;
    }
    let mut i: usize = 0;
    while i < a.len()
        invariant
            other@ == b@,
            a@.len() == other@.len(),
            i <= a@.len(),
            forall|j: int| 0 <= j < i ==> ascii_lower(#[trigger] a@[j]) == ascii_lower(other@[j]),
        decreases a@.len() - i,
    {
        if lower_char(a[i]) != lower_char(other[i]) {
            return false;
        }
        i = i + 1;
    }
    true
}

/// The position of the first `c` in `s`, or its length.
pub open spec fn first_index(s: Seq<char>, c: char) -> int
    decreases s.len(),
{
    if s.len() == 0 {
        0
    } else if s[0] == c {
        0
    } else {
        1 + first_index(s.drop_first(), c)
    }
}

/// Where the first occurrence of a character lies.
pub proof fn lemma_first_index(s: Seq<char>, c: char)
    ensures
        0 <= first_index(s, c) <= s.len(),
        forall|i: int| 0 <= i < first_index(s, c) ==> s[i] != c,
        first_index(s, c) < s.len() ==> s[first_index(s, c)] == c,
    decreases s.len(),
{
    if s.len() > 0 && s[0] != c {
        lemma_first_index(s.drop_first(), c);
        assert forall|i: int| 0 <= i < first_index(s, c) implies s[i] != c by {
            if i > 0 {
                assert(s[i] == s.drop_first()[i - 1]);
            }
        }
    }
}

/// The first occurrence is the one with none before it.
pub proof fn lemma_first_index_unique(s: Seq<char>, c: char, k: int)
    requires
        0 <= k <= s.len(),
        forall|j: int| 0 <= j < k ==> s[j] != c,
        k < s.len() ==> s[k] == c,
    ensures
        first_index(s, c) == k,
    decreases s.len(),
{
    if s.len() > 0 && k > 0 {
        assert forall|j: int| 0 <= j < k - 1 implies s.drop_first()[j] != c by {
            assert(s.drop_first()[j] == s[j + 1]);
        }
        lemma_first_index_unique(s.drop_first(), c, k - 1);
    }
}

/// The pieces of `s` between occurrences of `c`, as `str::split` yields them.
pub open spec fn split_spec(s: Seq<char>, c: char) -> Seq<Seq<char>>
    decreases s.len(),
{
    let k = first_index(s, c);
    if k < 0 || k >= s.len() {
        seq![s]
    } else {
        proof {
            lemma_first_index(s, c);
        }
        seq![s.take(k)] + split_spec(s.skip(k + 1), c)
    }
}

/// Split `text` at every occurrence of `c`.
pub fn split_char(text: &str, c: char) -> (result: Vec<String>)
    ensures
        string_views(result@) == split_spec(text@, c),
{
    let chars = chars_of(text);
    let ghost s = chars@;
    let mut result: Vec<String> = Vec::new();
    let mut start: usize = 0;
    let mut i: usize = 0;
    proof {
        assert(s.skip(0) =~= s);
    }
    while i < chars.len()
        invariant
            s == chars@,
            s == text@,
            start <= i <= s.len(),
            forall|j: int| start <= j < i ==> s[j] != c,
            string_views(result@) + split_spec(s.skip(start as int), c) == split_spec(s, c),
        decreases s.len() - i,
    {
        if chars[i] == c {
            let piece = string_range(chars.as_slice(), start, i);
            let ghost rest = s.skip(start as int);
            proof {
                assert forall|j: int| 0 <= j < i - start implies rest[j] != c by {
                    assert(rest[j] == s[start + j]);
                }
                lemma_first_index_unique(rest, c, i - start);
                assert(rest.take(i - start) =~= piece@);
                assert(rest.skip(i - start + 1) =~= s.skip(i + 1));
            }
            let ghost before = string_views(result@);
            result.push(piece);
            proof {
                assert(string_views(result@) =~= before.push(piece@));
                assert(before.push(piece@) + split_spec(s.skip(i + 1), c) =~= before + (seq![piece@] + split_spec(s.skip(i + 1), c)));
            }
            start = i + 1;
        }
        i = i + 1;
    }
    let piece = string_range(chars.as_slice(), start, i);
    let ghost rest = s.skip(start as int);
    proof {
        assert forall|j: int| 0 <= j < rest.len() implies rest[j] != c by {
            assert(rest[j] == s[start + j]);
        }
        lemma_first_index_unique(rest, c, rest.len() as int);
        assert(rest =~= piece@);
    }
    let ghost before = string_views(result@);
    result.push(piece);
    proof {
        assert(string_views(result@) =~= before.push(piece@));
    }
    result
}

/// `s` without leading white space.
pub open spec fn trim_start_spec(s: Seq<char>) -> Seq<char>
    decreases s.len(),
{
    if s.len() > 0 && is_white_space(s[0]) {
        trim_start_spec(s.drop_first())
    } else {
        s
    }
}

/// `s` without trailing white space.
pub open spec fn trim_end_spec(s: Seq<char>) -> Seq<char>
    decreases s.len(),
{
    if s.len() > 0 && is_white_space(s.last()) {
        trim_end_spec(s.drop_last())
    } else {
        s
    }
}

/// `str::trim`: `s` without leading and trailing white space.
pub open spec fn trim_spec(s: Seq<char>) -> Seq<char> {
    trim_end_spec(trim_start_spec(s))
}

/// `s` without leading and trailing white space.
pub fn trim(s: &str) -> (result: String)
    ensures
        result@ == trim_spec(s@),
{
    let chars = chars_of(s);
    let mut start: usize = 0;
    proof {
        assert(chars@.skip(0) =~= chars@);
    }
    while start < chars.len() && is_whitespace(chars[start])
        invariant
            start <= chars@.len(),
            trim_start_spec(chars@.skip(start as int)) == trim_start_spec(chars@),
        decreases chars@.len() - start,
    {
        proof {
            assert(chars@.skip(start as int).drop_first() =~= chars@.skip(start + 1));
        }
        start = start + 1;
    }
    let mut end: usize = chars.len();
    proof {
        assert(chars@.skip(start as int) =~= chars@.subrange(start as int, end as int));
    }
    while end > start && is_whitespace(chars[end - 1])
        invariant
            start <= end <= chars@.len(),
            trim_end_spec(chars@.subrange(start as int, end as int)) == trim_spec(chars@),
        decreases end,
    {
        proof {
            assert(chars@.subrange(start as int, end as int).drop_last() =~= chars@.subrange(start as int, end - 1));
        }
        end = end - 1;
    }
    string_range(chars.as_slice(), start, end)
}

/// Whether `pattern` occurs in `s` at position `i`.
pub open spec fn occurs_at_spec(s: Seq<char>, pattern: Seq<char>, i: int) -> bool {
    0 <= i && i + pattern.len() <= s.len() && s.subrange(i, i + pattern.len()) == pattern
}

/// `str::contains` with a string pattern.
pub open spec fn contains_spec(s: Seq<char>, pattern: Seq<char>) -> bool {
    exists|i: int| occurs_at_spec(s, pattern, i)
}

/// Whether the string `pattern` occurs in `a`.
pub fn contains_str(a: &[char], pattern: &str) -> (result: bool)
    ensures
        result == contains_spec(a@, pattern@),
{
    let p = chars_of(pattern);
    if p.len() == 0 {
        assert(a@.subrange(0, 0) =~= pattern@);
        assert(occurs_at_spec(a@, pattern@, 0));
        return true;
    }
    if p.len() > a.len() {
        proof {
            assert forall|i: int| !occurs_at_spec(a@, pattern@, i) by {}
        }
        return false;
    }
    let n = a.len();
    let last = n - p.len();
    let mut i: usize = 0;
    while i <= last
        invariant
            n == a@.len(),
            p@.len() > 0,
            p@ == pattern@,
            last + p@.len() == a@.len(),
            i <= last + 1,
            forall|j: int| 0 <= j < i ==> !occurs_at_spec(a@, pattern@, j),
        decreases last + 1 - i,
    {
        if occurs_at(a, i, p.as_slice()) {
            assert(a@.skip(i as int).take(p@.len() as int) =~= a@.subrange(i as int, i + p@.len()));
            assert(occurs_at_spec(a@, pattern@, i as int));
            return true;
        }
        assert(a@.skip(i as int).take(p@.len() as int) =~= a@.subrange(i as int, i + p@.len()));
        i = i + 1;
    }
    false
}

/// The index of the first element of `items` equal to `x`.
pub open spec fn first_position(items: Seq<Seq<char>>, x: Seq<char>) -> Option<int>
    decreases items.len(),
{
    if items.len() == 0 {
        None
    } else if items[0] == x {
        Some(0)
    } else {
        match first_position(items.drop_first(), x) {
            Some(i) => Some(i + 1),
            None => None,
        }
    }
}

/// The first element equal to `x` found scanning from the front is the first of all.
pub proof fn lemma_first_position(items: Seq<Seq<char>>, x: Seq<char>, k: int)
    requires
        0 <= k <= items.len(),
        forall|j: int| 0 <= j < k ==> items[j] != x,
        k < items.len() ==> items[k] == x,
    ensures
        first_position(items, x) == (if k < items.len() {
            Some(k)
        } else {
            None::<int>
        }),
    decreases items.len(),
{
    if items.len() > 0 && k > 0 {
        assert forall|j: int| 0 <= j < k - 1 implies items.drop_first()[j] != x by {
            assert(items.drop_first()[j] == items[j + 1]);
        }
        lemma_first_position(items.drop_first(), x, k - 1);
    }
}

} // verus!
