//! The reader of the legacy Fennel configuration subset: strings, symbols,
//! lists, vectors and maps, with `;` comments.

use vstd::prelude::*;

use crate::syncd_config::{
    byte_at, comment_end, lemma_scan_bounds, lemma_skip_ignored_bounds, skip_ignored, skip_white,
};
use crate::text::{byte_offsets, chars_of, is_white_space, is_whitespace, push_char, string_range};

verus! {

/// A form as written.
#[derive(Debug, PartialEq, Eq)]
pub enum Form {
    String(String),
    Symbol(String),
    List(Vec<Form>),
    Vector(Vec<Form>),
    Table(Vec<(Form, Form)>),
}

/// The abstract value of a form.
pub enum FormView {
    Text(Seq<char>),
    Symbol(Seq<char>),
    List(Seq<FormView>),
    Vector(Seq<FormView>),
    Table(Seq<(FormView, FormView)>),
}

impl Form {
    pub open spec fn view(self) -> FormView
        decreases self,
    {
        match self {
            Form::String(s) => FormView::Text(s@),
            Form::Symbol(s) => FormView::Symbol(s@),
            Form::List(items) => FormView::List(forms_view(items@)),
            Form::Vector(items) => FormView::Vector(forms_view(items@)),
            Form::Table(pairs) => FormView::Table(pairs_view(pairs@)),
        }
    }
}

/// The abstract values of a sequence of forms.
pub open spec fn forms_view(items: Seq<Form>) -> Seq<FormView>
    decreases items,
{
    if items.len() == 0 {
        Seq::empty()
    } else {
        seq![items[0].view()] + forms_view(items.drop_first())
    }
}

/// The abstract values of a sequence of pairs of forms.
pub open spec fn pairs_view(pairs: Seq<(Form, Form)>) -> Seq<(FormView, FormView)>
    decreases pairs,
{
    if pairs.len() == 0 {
        Seq::empty()
    } else {
        seq![(pairs[0].0.view(), pairs[0].1.view())] + pairs_view(pairs.drop_first())
    }
}

/// Why a source could not be read: the byte offset where reading stopped,
/// and what was wrong.
#[derive(Clone, Debug, PartialEq, Eq)]
pub struct ReadError {
    pub offset: usize,
    pub message: &'static str,
}

/// The abstract value of a `ReadError`.
pub struct ReadErrorView {
    pub offset: int,
    pub message: Seq<char>,
}

impl ReadError {
    pub open spec fn view(self) -> ReadErrorView {
        ReadErrorView { offset: self.offset as int, message: self.message@ }
    }
}

/// The error reported at character position `p`.
pub open spec fn read_error(s: Seq<char>, p: int, message: Seq<char>) -> ReadErrorView {
    ReadErrorView { offset: byte_at(s, p), message }
}

/// Characters that may stand in a symbol.
pub open spec fn is_symbol_char(c: char) -> bool {
    !is_white_space(c) && c != '(' && c != ')' && c != '[' && c != ']' && c != '{' && c != '}'
        && c != '"' && c != ';'
}

/// The end of the symbol that starts at `p`.
pub open spec fn symbol_end(s: Seq<char>, p: int) -> int
    decreases s.len() - p,
{
    if 0 <= p < s.len() && is_symbol_char(s[p]) {
        symbol_end(s, p + 1)
    } else {
        p
    }
}

proof fn lemma_symbol_end_bounds(s: Seq<char>, p: int)
    requires
        0 <= p <= s.len(),
    ensures
        p <= symbol_end(s, p) <= s.len(),
    decreases s.len() - p,
{
    if p < s.len() {
        lemma_symbol_end_bounds(s, p + 1);
    }
}

/// The character an escape sequence `\\c` stands for.
pub open spec fn escape_value(c: char) -> Option<char> {
    if c == 'n' {
        Some('\n')
    } else if c == 't' {
        Some('\t')
    } else if c == '"' {
        Some('"')
    } else if c == '\\' {
        Some('\\')
    } else {
        None
    }
}

/// The rest of a string literal whose body continues at `p`, `acc` read so
/// far: its text and the position after the closing quote.
pub open spec fn string_body(s: Seq<char>, p: int, acc: Seq<char>) -> Result<(Seq<char>, int), ReadErrorView>
    decreases s.len() - p,
{
    if p < 0 || p >= s.len() {
        Err(read_error(s, s.len() as int, "unterminated string"@))
    } else if s[p] == '"' {
        Ok((acc, p + 1))
    } else if s[p] == '\\' {
        if p + 1 < s.len() {
            match escape_value(s[p + 1]) {
                Some(c) => string_body(s, p + 2, acc.push(c)),
                None => Err(read_error(s, p + 2, "unsupported string escape"@)),
            }
        } else {
            Err(read_error(s, p + 1, "unsupported string escape"@))
        }
    } else {
        string_body(s, p + 1, acc.push(s[p]))
    }
}

proof fn lemma_string_body_bounds(s: Seq<char>, p: int, acc: Seq<char>)
    requires
        0 <= p,
    ensures
        string_body(s, p, acc) matches Ok((t, e)) ==> p < e <= s.len(),
    decreases s.len() - p,
{
    if 0 <= p < s.len() {
        if s[p] == '\\' {
            if p + 1 < s.len() {
                if let Some(c) = escape_value(s[p + 1]) {
                    lemma_string_body_bounds(s, p + 2, acc.push(c));
                }
            }
        } else if s[p] != '"' {
            lemma_string_body_bounds(s, p + 1, acc.push(s[p]));
        }
    }
}

/// Pairs of consecutive items.
pub open spec fn pair_up(items: Seq<FormView>) -> Seq<(FormView, FormView)> {
    Seq::new(items.len() / 2, |i: int| (items[2 * i], items[2 * i + 1]))
}

/// A form after the ignored text at `p`, and where it ends.
pub open spec fn form_spec(s: Seq<char>, p: int) -> Result<(FormView, int), ReadErrorView>
    decreases s.len() - p, 0int,
{
    if p < 0 || p > s.len() {
        Err(read_error(s, p, "expected form"@))
    } else {
        let q = skip_ignored(s, p);
        proof {
            lemma_skip_ignored_bounds(s, p);
        }
        if q >= s.len() {
            Err(read_error(s, q, "expected form"@))
        } else if s[q] == '(' {
            match items_spec(s, q + 1, ')') {
                Ok((items, e)) => Ok((FormView::List(items), e)),
                Err(x) => Err(x),
            }
        } else if s[q] == '[' {
            match items_spec(s, q + 1, ']') {
                Ok((items, e)) => Ok((FormView::Vector(items), e)),
                Err(x) => Err(x),
            }
        } else if s[q] == '{' {
            match items_spec(s, q + 1, '}') {
                Ok((items, e)) => if items.len() % 2 != 0 {
                    Err(read_error(s, e, "map has an odd number of forms"@))
                } else {
                    Ok((FormView::Table(pair_up(items)), e))
                },
                Err(x) => Err(x),
            }
        } else if s[q] == '"' {
            match string_body(s, q + 1, Seq::empty()) {
                Ok((t, e)) => Ok((FormView::Text(t), e)),
                Err(x) => Err(x),
            }
        } else {
            let e = symbol_end(s, q);
            if e == q {
                Err(read_error(s, q, "unexpected character"@))
            } else {
                Ok((FormView::Symbol(s.subrange(q, e)), e))
            }
        }
    }
}

/// The forms after the ignored text at `p` up to the closing `end`, and the
/// position after it.
pub open spec fn items_spec(s: Seq<char>, p: int, end: char) -> Result<(Seq<FormView>, int), ReadErrorView>
    decreases s.len() - p, 1int,
{
    if p < 0 || p > s.len() {
        Err(read_error(s, p, "unterminated collection"@))
    } else {
        let q = skip_ignored(s, p);
        proof {
            lemma_skip_ignored_bounds(s, p);
        }
        if q >= s.len() {
            Err(read_error(s, q, "unterminated collection"@))
        } else if s[q] == end {
            Ok((Seq::empty(), q + 1))
        } else {
            match form_spec(s, q) {
                Err(x) => Err(x),
                Ok((f, r)) => if q < r <= s.len() {
                    match items_spec(s, r, end) {
                        Ok((rest, e)) => Ok((seq![f] + rest, e)),
                        Err(x) => Err(x),
                    }
                } else {
                    Err(read_error(s, r, "expected form"@))
                },
            }
        }
    }
}

/// A whole source: one form, then only ignored text.
pub open spec fn read_spec(s: Seq<char>) -> Result<FormView, ReadErrorView> {
    match form_spec(s, 0) {
        Err(x) => Err(x),
        Ok((f, e)) => {
            let q = skip_ignored(s, e);
            if q != s.len() {
                Err(read_error(s, q, "unexpected trailing input"@))
            } else {
                Ok(f)
            }
        },
    }
}

/// Reading a form or a collection moves forward.
proof fn lemma_form_advances(s: Seq<char>, p: int)
    requires
        0 <= p <= s.len(),
    ensures
        form_spec(s, p) matches Ok((f, e)) ==> skip_ignored(s, p) < e <= s.len(),
    decreases s.len() - p, 0int,
{
    lemma_skip_ignored_bounds(s, p);
    let q = skip_ignored(s, p);
    if q < s.len() {
        if s[q] == '(' || s[q] == '[' || s[q] == '{' {
            let end = if s[q] == '(' {
                ')'
            } else if s[q] == '[' {
                ']'
            } else {
                '}'
            };
            lemma_items_advance(s, q + 1, end);
        } else if s[q] == '"' {
            lemma_string_body_bounds(s, q + 1, Seq::empty());
        } else {
            lemma_symbol_end_bounds(s, q);
        }
    }
}

proof fn lemma_items_advance(s: Seq<char>, p: int, end: char)
    requires
        0 <= p <= s.len(),
    ensures
        items_spec(s, p, end) matches Ok((items, e)) ==> p < e <= s.len(),
    decreases s.len() - p, 1int,
{
    lemma_skip_ignored_bounds(s, p);
    let q = skip_ignored(s, p);
    if q < s.len() && s[q] != end {
        lemma_form_advances(s, q);
        if let Ok((f, r)) = form_spec(s, q) {
            if q < r <= s.len() {
                lemma_items_advance(s, r, end);
            }
        }
    }
}

/// A source being read, with the byte offset of every character position.
pub struct Reader {
    chars: Vec<char>,
    offsets: Vec<usize>,
    position: usize,
}

impl Reader {
    /// The characters of the source.
    pub closed spec fn source(self) -> Seq<char> {
        self.chars@
    }

    /// The character position reached.
    pub closed spec fn at(self) -> int {
        self.position as int
    }

    pub closed spec fn wf(self) -> bool {
        &&& self.offsets@.len() == self.chars@.len() + 1
        &&& forall|k: int| 0 <= k <= self.chars@.len() ==> #[trigger] self.offsets@[k] == byte_at(self.chars@, k)
        &&& self.position <= self.chars@.len()
    }

    pub fn new(source: &str) -> (result: Reader)
        ensures
            result.wf(),
            result.source() == source@,
            result.at() == 0,
    {
        let chars = chars_of(source);
        let offsets = byte_offsets(source, &chars);
        Reader { chars, offsets, position: 0 }
    }

    fn error(&self, at: usize, message: &'static str) -> (result: ReadError)
        requires
            self.wf(),
            at <= self.chars@.len(),
        ensures
            result.view() == read_error(self.source(), at as int, message@),
    {
        ReadError { offset: self.offsets[at], message }
    }

    fn skip_ignored(&mut self)
        requires
            old(self).wf(),
        ensures
            final(self).wf(),
            final(self).source() == old(self).source(),
            final(self).at() == skip_ignored(old(self).source(), old(self).at()),
    {
        let ghost s = self.chars@;
        let ghost target = skip_ignored(s, self.position as int);
        loop
            invariant
                self.wf(),
                self.chars@ == s,
                s == old(self).source(),
                target == skip_ignored(old(self).source(), old(self).at()),
                skip_ignored(s, self.position as int) == target,
            decreases s.len() - self.position,
        {
            let ghost p = self.position as int;
            proof {
                lemma_scan_bounds(s, p);
            }
            while self.position < self.chars.len() && is_whitespace(self.chars[self.position])
                invariant
                    self.wf(),
                    self.chars@ == s,
                    0 <= p <= self.position,
                    skip_white(s, self.position as int) == skip_white(s, p),
                decreases s.len() - self.position,
            {
                self.position = self.position + 1;
            }
            if self.position >= self.chars.len() || self.chars[self.position] != ';' {
                proof {
                    assert(skip_ignored(s, p) == self.position);
                }
                return;
            }
            self.position = self.position + 1;
            proof {
                lemma_scan_bounds(s, self.position as int);
            }
            while self.position < self.chars.len() && self.chars[self.position] != '\n'
                invariant
                    self.wf(),
                    self.chars@ == s,
                    0 <= p < self.position,
                    skip_white(s, p) < s.len(),
                    s[skip_white(s, p)] == ';',
                    comment_end(s, self.position as int) == comment_end(s, skip_white(s, p) + 1),
                decreases s.len() - self.position,
            {
                self.position = self.position + 1;
            }
            proof {
                assert(skip_ignored(s, p) == skip_ignored(s, self.position as int));
            }
        }
    }

    /// The body of a string literal, after its opening quote.
    fn string_body(&mut self) -> (result: Result<String, ReadError>)
        requires
            old(self).wf(),
        ensures
            final(self).wf(),
            final(self).source() == old(self).source(),
            match string_body(old(self).source(), old(self).at(), Seq::empty()) {
                Ok((t, e)) => result matches Ok(r) && r@ == t && final(self).at() == e,
                Err(x) => result matches Err(r) && r.view() == x,
            },
    {
        let ghost s = self.chars@;
        let ghost start = self.position as int;
        let mut value = String::new();
        loop
            invariant
                self.wf(),
                self.chars@ == s,
                s == old(self).source(),
                start == old(self).at(),
                string_body(s, start, Seq::empty()) == string_body(s, self.position as int, value@),
            decreases s.len() - self.position,
        {
            if self.position >= self.chars.len() {
                return Err(self.error(self.chars.len(), "unterminated string"));
            }
            let c = self.chars[self.position];
            if c == '"' {
                self.position = self.position + 1;
                return Ok(value);
            }
            if c == '\\' {
                if self.position + 1 >= self.chars.len() {
                    return Err(self.error(self.position + 1, "unsupported string escape"));
                }
                let next = self.chars[self.position + 1];
                let decoded = if next == 'n' {
                    '\n'
                } else if next == 't' {
                    '\t'
                } else if next == '"' {
                    '"'
                } else if next == '\\' {
                    '\\'
                } else {
                    return Err(self.error(self.position + 2, "unsupported string escape"));
                };
                push_char(&mut value, decoded);
                self.position = self.position + 2;
            } else {
                push_char(&mut value, c);
                self.position = self.position + 1;
            }
        }
    }

    /// The form after the ignored text at the current position.
    pub fn form(&mut self) -> (result: Result<Form, ReadError>)
        requires
            old(self).wf(),
        ensures
            final(self).wf(),
            final(self).source() == old(self).source(),
            match form_spec(old(self).source(), old(self).at()) {
                Ok((f, e)) => result matches Ok(r) && r.view() == f && final(self).at() == e,
                Err(x) => result matches Err(r) && r.view() == x,
            },
        decreases old(self).source().len() - old(self).at(), 0int,
    {
        let ghost s = self.chars@;
        let ghost p = self.position as int;
        self.skip_ignored();
        proof {
            lemma_skip_ignored_bounds(s, p);
        }
        let q = self.position;
        if q >= self.chars.len() {
            return Err(self.error(q, "expected form"));
        }
        let c = self.chars[q];
        if c == '(' || c == '[' || c == '{' {
            let end = if c == '(' {
                ')'
            } else if c == '[' {
                ']'
            } else {
                '}'
            };
            self.position = q + 1;
            let items = match self.items(end) {
                Ok(items) => items,
                Err(error) => {
                    return Err(error);
                },
            };
            if c == '(' {
                return Ok(Form::List(items));
            }
            if c == '[' {
                return Ok(Form::Vector(items));
            }
            proof {
                lemma_forms_view_len(items@);
            }
            if items.len() % 2 != 0 {
                return Err(self.error(self.position, "map has an odd number of forms"));
            }
            let pairs = pair_forms(items);
            return Ok(Form::Table(pairs));
        }
        if c == '"' {
            self.position = q + 1;
            return match self.string_body() {
                Ok(text) => Ok(Form::String(text)),
                Err(error) => Err(error),
            };
        }
        proof {
            lemma_symbol_end_bounds(s, q as int);
        }
        while self.position < self.chars.len() && symbol_char(self.chars[self.position])
            invariant
                self.wf(),
                self.chars@ == s,
                q <= self.position,
                symbol_end(s, self.position as int) == symbol_end(s, q as int),
            decreases s.len() - self.position,
        {
            self.position = self.position + 1;
        }
        if self.position == q {
            return Err(self.error(q, "unexpected character"));
        }
        let text = string_range(self.chars.as_slice(), q, self.position);
        Ok(Form::Symbol(text))
    }

    /// The forms up to the closing `end`, which is consumed.
    fn items(&mut self, end: char) -> (result: Result<Vec<Form>, ReadError>)
        requires
            old(self).wf(),
        ensures
            final(self).wf(),
            final(self).source() == old(self).source(),
            match items_spec(old(self).source(), old(self).at(), end) {
                Ok((items, e)) => result matches Ok(r) && forms_view(r@) == items && final(self).at() == e,
                Err(x) => result matches Err(r) && r.view() == x,
            },
        decreases old(self).source().len() - old(self).at(), 1int,
    {
        let ghost s = self.chars@;
        let ghost p0 = self.position as int;
        let mut values: Vec<Form> = Vec::new();
        loop
            invariant
                self.wf(),
                self.chars@ == s,
                s == old(self).source(),
                p0 == old(self).at(),
                p0 <= self.position,
                items_spec(s, p0, end) == prepend(forms_view(values@), items_spec(s, self.position as int, end)),
            decreases s.len() - self.position,
        {
            let ghost p = self.position as int;
            self.skip_ignored();
            proof {
                lemma_skip_ignored_bounds(s, p);
            }
            let q = self.position;
            if q >= self.chars.len() {
                return Err(self.error(q, "unterminated collection"));
            }
            if self.chars[q] == end {
                self.position = q + 1;
                proof {
                    assert(forms_view(values@) + Seq::<FormView>::empty() =~= forms_view(values@));
                }
                return Ok(values);
            }
            proof {
                lemma_form_advances(s, q as int);
                lemma_skip_ignored_bounds(s, q as int);
            }
            let form = match self.form() {
                Ok(form) => form,
                Err(error) => {
                    return Err(error);
                },
            };
            proof {
                lemma_forms_view_push(values@, form);
                assert(forms_view(values@) + (seq![form.view()] + Seq::<FormView>::empty()) =~= forms_view(values@).push(form.view()));
            }
            proof {
                let r = self.position as int;
                assert(skip_ignored(s, p) == q);
                assert(q < r <= s.len());
                assert(items_spec(s, p, end) == prepend(seq![form.view()], items_spec(s, r, end)));
            }
            let ghost before = forms_view(values@);
            values.push(form);
            proof {
                assert(forms_view(values@) == before.push(form.view()));
                match items_spec(s, self.position as int, end) {
                    Ok((rest, e)) => {
                        assert(before + (seq![form.view()] + rest) =~= before.push(form.view()) + rest);
                    },
                    Err(x) => {},
                }
            }
        }
    }
}

/// `vs` before the items of a successful read.
pub open spec fn prepend(vs: Seq<FormView>, r: Result<(Seq<FormView>, int), ReadErrorView>) -> Result<(Seq<FormView>, int), ReadErrorView> {
    match r {
        Ok((rest, e)) => Ok((vs + rest, e)),
        Err(x) => Err(x),
    }
}

/// The view of forms grows with the forms.
proof fn lemma_forms_view_push(items: Seq<Form>, f: Form)
    ensures
        forms_view(items.push(f)) == forms_view(items).push(f.view()),
    decreases items.len(),
{
    let t = items.push(f);
    if items.len() == 0 {
        assert(t.len() == 1 && t[0] == f);
        assert(t.drop_first().len() == 0);
        assert(forms_view(t.drop_first()) == Seq::<FormView>::empty());
        assert(forms_view(t) =~= seq![f.view()]);
        assert(forms_view(items) == Seq::<FormView>::empty());
        assert(forms_view(t) =~= forms_view(items).push(f.view()));
    } else {
        assert(t[0] == items[0]);
        assert(t.drop_first() =~= items.drop_first().push(f));
        lemma_forms_view_push(items.drop_first(), f);
        assert(forms_view(t) =~= forms_view(items).push(f.view()));
    }
}

fn symbol_char(c: char) -> (result: bool)
    ensures
        result == is_symbol_char(c),
{
    !is_whitespace(c) && c != '(' && c != ')' && c != '[' && c != ']' && c != '{' && c != '}'
        && c != '"' && c != ';'
}

/// Consecutive forms paired up.
fn pair_forms(items: Vec<Form>) -> (result: Vec<(Form, Form)>)
    requires
        items@.len() % 2 == 0,
    ensures
        pairs_view(result@) == pair_up(forms_view(items@)),
{
    let ghost all = forms_view(items@);
    proof {
        lemma_forms_view_len(items@);
        assert(all.skip(0) =~= all);
    }
    let mut rest = items;
    let mut pairs: Vec<(Form, Form)> = Vec::new();
    proof {
        assert(pairs_view(pairs@) =~= pair_up(all).take(0));
    }
    while rest.len() >= 2
        invariant
            rest@.len() % 2 == 0,
            2 * pairs@.len() + rest@.len() == all.len(),
            all.len() % 2 == 0,
            forms_view(rest@) == all.skip(2 * pairs@.len() as int),
            pairs_view(pairs@) == pair_up(all).take(pairs@.len() as int),
        decreases rest@.len(),
    {
        let ghost k = pairs@.len() as int;
        let ghost tail = rest@;
        let first = rest.remove(0);
        let second = rest.remove(0);
        proof {
            lemma_forms_view_front(tail);
            lemma_forms_view_front(tail.drop_first());
            assert(tail.drop_first().drop_first() =~= rest@);
            assert(all.skip(2 * k)[0] == first.view());
            assert(all.skip(2 * k)[1] == second.view());
            assert(all.skip(2 * k + 2) =~= all.skip(2 * k).drop_first().drop_first());
        }
        let ghost old_pairs = pairs@;
        let ghost fv = first.view();
        let ghost sv = second.view();
        pairs.push((first, second));
        proof {
            let pr = pairs@[k];
            assert(pairs@ =~= old_pairs.push(pr));
            lemma_pairs_view_push(old_pairs, pr);
            assert(pr.0.view() == fv && pr.1.view() == sv);
            assert(pair_up(all)[k] == (all[2 * k], all[2 * k + 1]));
            assert(all[2 * k] == all.skip(2 * k)[0]);
            assert(all[2 * k + 1] == all.skip(2 * k)[1]);
            assert(pair_up(all).take(k + 1) =~= pair_up(all).take(k).push(pair_up(all)[k]));
        }
    }
    proof {
        assert(pair_up(all).take(pairs@.len() as int) =~= pair_up(all));
    }
    pairs
}

/// The view of forms, front first.
proof fn lemma_forms_view_front(items: Seq<Form>)
    requires
        items.len() > 0,
    ensures
        forms_view(items) == seq![items[0].view()] + forms_view(items.drop_first()),
        forms_view(items).len() == items.len(),
        forms_view(items)[0] == items[0].view(),
        forms_view(items).drop_first() == forms_view(items.drop_first()),
    decreases items.len(),
{
    lemma_forms_view_len(items.drop_first());
    assert((seq![items[0].view()] + forms_view(items.drop_first())).drop_first() =~= forms_view(items.drop_first()));
}

pub proof fn lemma_forms_view_len(items: Seq<Form>)
    ensures
        forms_view(items).len() == items.len(),
    decreases items.len(),
{
    if items.len() > 0 {
        lemma_forms_view_len(items.drop_first());
    }
}

proof fn lemma_pairs_view_push(pairs: Seq<(Form, Form)>, p: (Form, Form))
    ensures
        pairs_view(pairs.push(p)) == pairs_view(pairs).push((p.0.view(), p.1.view())),
    decreases pairs.len(),
{
    let t = pairs.push(p);
    if pairs.len() == 0 {
        assert(t.len() == 1 && t[0] == p);
        assert(t.drop_first().len() == 0);
        assert(pairs_view(t.drop_first()) == Seq::<(FormView, FormView)>::empty());
        assert(pairs_view(t) =~= seq![(p.0.view(), p.1.view())]);
        assert(pairs_view(pairs) == Seq::<(FormView, FormView)>::empty());
        assert(pairs_view(t) =~= pairs_view(pairs).push((p.0.view(), p.1.view())));
    } else {
        assert(t[0] == pairs[0]);
        assert(t.drop_first() =~= pairs.drop_first().push(p));
        lemma_pairs_view_push(pairs.drop_first(), p);
        assert(pairs_view(t) =~= pairs_view(pairs).push((p.0.view(), p.1.view())));
    }
}

/// Read a whole source: one form, then nothing but white space and comments.
pub fn read(source: &str) -> (result: Result<Form, ReadError>)
    ensures
        match read_spec(source@) {
            Ok(f) => result matches Ok(r) && r.view() == f,
            Err(x) => result matches Err(r) && r.view() == x,
        },
{
    let mut reader = Reader::new(source);
    let form = match reader.form() {
        Ok(form) => form,
        Err(error) => {
            return Err(error);
        },
    };
    reader.skip_ignored();
    if reader.position != reader.chars.len() {
        return Err(reader.error(reader.position, "unexpected trailing input"));
    }
    Ok(form)
}

/// What `format!("{:?}", s)` writes for a string: the string quoted, with
/// escapes for quotes, backslashes and characters that are not printable.
pub uninterp spec fn debug_quoted(s: Seq<char>) -> Seq<char>;

/// `format!("{:?}", s)` for a string slice.
#[verifier::external_body]
fn quote_debug(s: &str) -> (result: String)
    ensures
        result@ == debug_quoted(s@),
{
    format!("{s:?}")
}

/// The text of a form as its derived `Debug` writes it (a table is written
/// as a `Map` of pairs).
pub open spec fn debug_spec(f: FormView) -> Seq<char>
    decreases f,
{
    match f {
        FormView::Text(t) => "String("@ + debug_quoted(t) + ")"@,
        FormView::Symbol(t) => "Symbol("@ + debug_quoted(t) + ")"@,
        FormView::List(items) => "List(["@ + items_debug(items) + "])"@,
        FormView::Vector(items) => "Vector(["@ + items_debug(items) + "])"@,
        FormView::Table(pairs) => "Map(["@ + pairs_debug(pairs) + "])"@,
    }
}

/// The texts of forms separated by `, `.
pub open spec fn items_debug(items: Seq<FormView>) -> Seq<char>
    decreases items,
{
    if items.len() == 0 {
        Seq::empty()
    } else if items.len() == 1 {
        debug_spec(items[0])
    } else {
        items_debug(items.drop_last()) + ", "@ + debug_spec(items.last())
    }
}

/// The texts of pairs `(key, value)` separated by `, `.
pub open spec fn pairs_debug(pairs: Seq<(FormView, FormView)>) -> Seq<char>
    decreases pairs,
{
    if pairs.len() == 0 {
        Seq::empty()
    } else if pairs.len() == 1 {
        "("@ + debug_spec(pairs[0].0) + ", "@ + debug_spec(pairs[0].1) + ")"@
    } else {
        pairs_debug(pairs.drop_last()) + ", "@ + ("("@ + debug_spec(pairs.last().0) + ", "@
            + debug_spec(pairs.last().1) + ")"@)
    }
}

/// Each view of forms is the view of the form at that place.
pub proof fn lemma_forms_view_index(items: Seq<Form>)
    ensures
        forms_view(items).len() == items.len(),
        forall|i: int| 0 <= i < items.len() ==> forms_view(items)[i] == (#[trigger] items[i]).view(),
    decreases items.len(),
{
    if items.len() > 0 {
        lemma_forms_view_index(items.drop_first());
        assert forall|i: int| 0 <= i < items.len() implies forms_view(items)[i] == (#[trigger] items[i]).view() by {
            if i > 0 {
                assert(items.drop_first()[i - 1] == items[i]);
            }
        }
    }
}

/// Each view of pairs is the pair of views at that place.
pub proof fn lemma_pairs_view_index(pairs: Seq<(Form, Form)>)
    ensures
        pairs_view(pairs).len() == pairs.len(),
        forall|i: int| 0 <= i < pairs.len() ==> pairs_view(pairs)[i] == ((#[trigger] pairs[i]).0.view(), pairs[i].1.view()),
    decreases pairs.len(),
{
    if pairs.len() > 0 {
        lemma_pairs_view_index(pairs.drop_first());
        assert forall|i: int| 0 <= i < pairs.len() implies pairs_view(pairs)[i] == ((#[trigger] pairs[i]).0.view(), pairs[i].1.view()) by {
            if i > 0 {
                assert(pairs.drop_first()[i - 1] == pairs[i]);
            }
        }
    }
}

fn push_text(out: &mut String, text: &str)
    ensures
        final(out)@ == old(out)@ + text@,
{
    crate::text::push_str(out, text);
}

/// The text of a form as its derived `Debug` writes it.
pub fn debug_text(form: &Form) -> (result: String)
    ensures
        result@ == debug_spec(form.view()),
    decreases form,
{
    proof {
        reveal_strlit("String(");
        reveal_strlit("Symbol(");
        reveal_strlit("List([");
        reveal_strlit("Vector([");
        reveal_strlit("Map([");
        reveal_strlit(")");
        reveal_strlit("])");
        reveal_strlit(", ");
        reveal_strlit("(");
    }
    match form {
        Form::String(t) => {
            let mut out = String::new();
            push_text(&mut out, "String(");
            let quoted = quote_debug(t.as_str());
            push_text(&mut out, quoted.as_str());
            push_text(&mut out, ")");
            assert(out@ =~= debug_spec(form.view()));
            out
        },
        Form::Symbol(t) => {
            let mut out = String::new();
            push_text(&mut out, "Symbol(");
            let quoted = quote_debug(t.as_str());
            push_text(&mut out, quoted.as_str());
            push_text(&mut out, ")");
            assert(out@ =~= debug_spec(form.view()));
            out
        },
        Form::List(items) | Form::Vector(items) => {
            let ghost views = forms_view(items@);
            proof {
                lemma_forms_view_index(items@);
            }
            let mut body = String::new();
            let mut i: usize = 0;
            while i < items.len()
                invariant
                    i <= items@.len(),
                    views == forms_view(items@),
                    views.len() == items@.len(),
                    forall|j: int| 0 <= j < items@.len() ==> views[j] == (#[trigger] items@[j]).view(),
                    body@ == items_debug(views.take(i as int)),
                    form.view() == FormView::List(views) || form.view() == FormView::Vector(views),
                    *form == Form::List(*items) || *form == Form::Vector(*items),
                decreases items@.len() - i,
            {
                proof {
                    if *form == Form::List(*items) {
                        assert(decreases_to!(*form => form->List_0));
                    } else {
                        assert(decreases_to!(*form => form->Vector_0));
                    }
                    assert(decreases_to!(*items => items@));
                    assert(decreases_to!(items@ => items@[i as int]));
                }
                let ghost before = body@;
                if i > 0 {
                    push_text(&mut body, ", ");
                }
                let text = debug_text(&items[i]);
                push_text(&mut body, text.as_str());
                proof {
                    let t = views.take(i + 1);
                    assert(t.drop_last() =~= views.take(i as int));
                    assert(t.last() == views[i as int]);
                    if i == 0 {
                        assert(t.len() == 1);
                        assert(body@ =~= items_debug(t));
                    } else {
                        assert(body@ =~= items_debug(t));
                    }
                }
                i = i + 1;
            }
            proof {
                assert(views.take(i as int) =~= views);
            }
            let mut out = String::new();
            match form {
                Form::List(_) => push_text(&mut out, "List(["),
                _ => push_text(&mut out, "Vector(["),
            }
            push_text(&mut out, body.as_str());
            push_text(&mut out, "])");
            assert(out@ =~= debug_spec(form.view()));
            out
        },
        Form::Table(pairs) => {
            let ghost views = pairs_view(pairs@);
            proof {
                lemma_pairs_view_index(pairs@);
            }
            let mut body = String::new();
            let mut i: usize = 0;
            while i < pairs.len()
                invariant
                    i <= pairs@.len(),
                    views == pairs_view(pairs@),
                    views.len() == pairs@.len(),
                    forall|j: int| 0 <= j < pairs@.len() ==> views[j] == ((#[trigger] pairs@[j]).0.view(), pairs@[j].1.view()),
                    body@ == pairs_debug(views.take(i as int)),
                    form.view() == FormView::Table(views),
                    *form == Form::Table(*pairs),
                decreases pairs@.len() - i,
            {
                proof {
                    assert(decreases_to!(*form => form->Table_0));
                    assert(decreases_to!(*pairs => pairs@));
                    assert(decreases_to!(pairs@ => pairs@[i as int]));
                    assert(decreases_to!(pairs@[i as int] => pairs@[i as int].0));
                    assert(decreases_to!(pairs@[i as int] => pairs@[i as int].1));
                }
                let ghost before = body@;
                if i > 0 {
                    push_text(&mut body, ", ");
                }
                let key = debug_text(&pairs[i].0);
                let value = debug_text(&pairs[i].1);
                push_text(&mut body, "(");
                push_text(&mut body, key.as_str());
                push_text(&mut body, ", ");
                push_text(&mut body, value.as_str());
                push_text(&mut body, ")");
                proof {
                    let t = views.take(i + 1);
                    assert(t.drop_last() =~= views.take(i as int));
                    assert(t.last() == views[i as int]);
                    if i == 0 {
                        assert(t.len() == 1);
                        assert(body@ =~= pairs_debug(t));
                    } else {
                        assert(body@ =~= pairs_debug(t));
                    }
                }
                i = i + 1;
            }
            proof {
                assert(views.take(i as int) =~= views);
            }
            let mut out = String::new();
            push_text(&mut out, "Map([");
            push_text(&mut out, body.as_str());
            push_text(&mut out, "])");
            assert(out@ =~= debug_spec(form.view()));
            out
        },
    }
}

} // verus!
