//! The path language that addresses fields and array elements of a document.

use crate::errors::{Failure, TransformError};
use vstd::prelude::*;

verus! {

/// One step of a path: a field of an object, or an element of an array.
///
/// `test.value` is the two steps `Object { id: "test" }` and
/// `Object { id: "value" }`. An `Array` step with an empty `id` indexes the
/// current value itself.
#[derive(Debug, PartialEq)]
pub enum Namespace {
    Object { id: String },
    Array { id: String, index: usize },
}

/// Mathematical model of a [`Namespace`].
pub enum Segment {
    Object { id: Seq<char> },
    Array { id: Seq<char>, index: usize },
}

impl View for Namespace {
    type V = Segment;

    open spec fn view(&self) -> Segment {
        match self {
            Namespace::Object { id } => Segment::Object { id: id@ },
            Namespace::Array { id, index } => Segment::Array { id: id@, index: *index },
        }
    }
}

impl Segment {
    /// The name of the field that the step goes through.
    pub open spec fn id(self) -> Seq<char> {
        match self {
            Segment::Object { id } => id,
            Segment::Array { id, .. } => id,
        }
    }
}

/// The models of a list of steps.
pub open spec fn path_view(path: Seq<Namespace>) -> Seq<Segment> {
    Seq::new(path.len(), |i: int| path[i]@)
}

/// The index of the first `c` in `s` at or after `from`, or the length of `s`
/// if there is none.
pub open spec fn first_index_from(s: Seq<char>, c: char, from: int) -> int
    decreases s.len() - from,
{
    if from < 0 || from >= s.len() {
        s.len() as int
    } else if s[from] == c {
        from
    } else {
        first_index_from(s, c, from + 1)
    }
}

/// The index of the first `c` in `s`, or the length of `s` if there is none.
pub open spec fn first_index(s: Seq<char>, c: char) -> int {
    first_index_from(s, c, 0)
}

/// The pieces of `s` between occurrences of `c`. There is always at least
/// one piece; `n` separators give `n + 1` pieces, some of them maybe empty.
pub open spec fn split(s: Seq<char>, c: char) -> Seq<Seq<char>>
    decreases s.len(),
{
    let i = first_index(s, c);
    if 0 <= i < s.len() {
        seq![s.subrange(0, i)] + split(s.subrange(i + 1, s.len() as int), c)
    } else {
        seq![s]
    }
}

/// The texts of the steps that one piece between dots holds. A piece
/// without `]` is one step text, the empty piece too: it names the field
/// with the empty name. A piece with `]` is cut after every `]`, and what
/// follows the last `]` is a step text only where it is not empty.
pub open spec fn piece_texts(piece: Seq<char>) -> Seq<Seq<char>> {
    let parts = split(piece, ']');
    if parts.len() > 1 && parts.last().len() == 0 {
        parts.drop_last()
    } else {
        parts
    }
}

/// The texts of the steps of a path: those of each piece between dots, in
/// their order.
pub open spec fn step_texts_of(pieces: Seq<Seq<char>>) -> Seq<Seq<char>>
    decreases pieces.len(),
{
    if pieces.len() == 0 {
        Seq::empty()
    } else {
        step_texts_of(pieces.drop_last()) + piece_texts(pieces.last())
    }
}

/// The texts of the steps of the path `s`.
pub open spec fn step_texts(s: Seq<char>) -> Seq<Seq<char>> {
    step_texts_of(split(s, '.'))
}

/// Whether `c` is one of the ten decimal digits.
pub open spec fn is_digit(c: char) -> bool {
    '0' <= c <= '9'
}

/// The number that a row of decimal digits denotes.
pub open spec fn decimal_value(digits: Seq<char>) -> nat
    decreases digits.len(),
{
    if digits.len() == 0 {
        0
    } else {
        10 * decimal_value(digits.drop_last()) + (digits.last() as nat - '0' as nat) as nat
    }
}

/// The digits of an index text: the text without a leading `+`.
pub open spec fn index_digits(text: Seq<char>) -> Seq<char> {
    if text.len() > 0 && text[0] == '+' {
        text.drop_first()
    } else {
        text
    }
}

/// The index that a text denotes: an optional `+`, then at least one decimal
/// digit and nothing else, with a value that fits the machine word.
pub open spec fn index_value(text: Seq<char>) -> Option<usize> {
    let digits = index_digits(text);
    if digits.len() > 0 && (forall|i: int| 0 <= i < digits.len() ==> is_digit(#[trigger] digits[i]))
        && decimal_value(digits) <= usize::MAX {
        Some(decimal_value(digits) as usize)
    } else {
        None
    }
}

/// The text of the index of a step text that holds a `[`.
pub open spec fn index_text(text: Seq<char>) -> Seq<char> {
    text.subrange(first_index(text, '[') + 1, text.len() as int)
}

/// The step that a step text denotes, if its index, where it has one, is valid.
pub open spec fn segment_of(text: Seq<char>) -> Option<Segment> {
    let open = first_index(text, '[');
    if 0 <= open < text.len() {
        match index_value(index_text(text)) {
            Some(index) => Some(Segment::Array { id: text.subrange(0, open), index }),
            None => None,
        }
    } else {
        Some(Segment::Object { id: text })
    }
}

/// The steps that a list of step texts denotes, or the index text of the
/// first step whose index is not valid.
pub open spec fn segments_of(texts: Seq<Seq<char>>) -> Result<Seq<Segment>, Seq<char>>
    decreases texts.len(),
{
    if texts.len() == 0 {
        Ok(Seq::empty())
    } else {
        match segments_of(texts.drop_last()) {
            Err(bad) => Err(bad),
            Ok(steps) => match segment_of(texts.last()) {
                Some(step) => Ok(steps.push(step)),
                None => Err(index_text(texts.last())),
            },
        }
    }
}

/// The path that the text `s` denotes, or the index text of its first step
/// whose index is not valid.
pub open spec fn parsed(s: Seq<char>) -> Result<Seq<Segment>, Seq<char>> {
    segments_of(step_texts(s))
}

/// The models of a list of texts.
pub open spec fn texts_view(texts: Seq<String>) -> Seq<Seq<char>> {
    Seq::new(texts.len(), |i: int| texts[i]@)
}

/// An index at or after `from` that holds `c`, with no `c` between, is
/// `first_index_from`.
proof fn lemma_first_index_from(s: Seq<char>, c: char, from: int, at: int)
    requires
        0 <= from <= at <= s.len(),
        forall|j: int| from <= j < at ==> s[j] != c,
        at < s.len() ==> s[at] == c,
    ensures
        first_index_from(s, c, from) == at,
    decreases at - from,
{
    if from < at {
        lemma_first_index_from(s, c, from + 1, at);
    }
}

/// An index that holds `c`, with no `c` before it, is `first_index`.
pub(crate) proof fn lemma_first_index(s: Seq<char>, c: char, at: int)
    requires
        0 <= at <= s.len(),
        forall|j: int| 0 <= j < at ==> s[j] != c,
        at < s.len() ==> s[at] == c,
    ensures
        first_index(s, c) == at,
{
    lemma_first_index_from(s, c, 0, at);
}

/// The value of a row of digits is at least the value of each of its prefixes.
proof fn lemma_decimal_value_grows(digits: Seq<char>, k: int)
    requires
        0 <= k <= digits.len(),
        forall|i: int| 0 <= i < digits.len() ==> is_digit(#[trigger] digits[i]),
    ensures
        decimal_value(digits.subrange(0, k)) <= decimal_value(digits),
    decreases digits.len() - k,
{
    if k == digits.len() {
        assert(digits.subrange(0, k) =~= digits);
    } else {
        let longer = digits.subrange(0, k + 1);
        assert(longer.drop_last() =~= digits.subrange(0, k));
        lemma_decimal_value_grows(digits, k + 1);
    }
}

/// Finds the first `c` in `s` at or after the position `from`.
fn find_char(s: &str, c: char, from: usize) -> (at: usize)
    requires
        from <= s@.len(),
    ensures
        from <= at <= s@.len(),
        forall|j: int| from <= j < at ==> s@[j] != c,
        at < s@.len() ==> s@[at as int] == c,
{
    let n = s.unicode_len();
    let mut at: usize = from;
    while at < n
        invariant
            n == s@.len(),
            from <= at <= n,
            forall|j: int| from <= j < at ==> s@[j] != c,
        decreases n - at,
    {
        if s.get_char(at) == c {
            return at;
        }
        at += 1;
    }
    at
}

/// Cuts `s` at every `c`.
fn split_text(s: &str, c: char) -> (pieces: Vec<String>)
    ensures
        texts_view(pieces@) == split(s@, c),
{
    let n = s.unicode_len();
    let mut pieces: Vec<String> = Vec::new();
    let mut start: usize = 0;
    assert(s@.subrange(0, n as int) =~= s@);
    loop
        invariant
            n == s@.len(),
            0 <= start <= n,
            split(s@, c) == texts_view(pieces@) + split(s@.subrange(start as int, n as int), c),
        decreases n - start,
    {
        let at = find_char(s, c, start);
        let ghost rest = s@.subrange(start as int, n as int);
        proof {
            lemma_first_index(rest, c, at - start);
        }
        pieces.push(s.substring_char(start, at).to_owned());
        assert(rest.subrange(0, at - start) =~= s@.subrange(start as int, at as int));
        if at == n {
            return pieces;
        }
        assert(rest.subrange(at - start + 1, rest.len() as int) =~= s@.subrange(
            at + 1,
            n as int,
        ));
        start = at + 1;
    }
}

/// Reads an index: an optional `+` and then decimal digits.
fn parse_index(text: &str) -> (r: Option<usize>)
    ensures
        r == index_value(text@),
{
    let n = text.unicode_len();
    let start: usize = if n > 0 && text.get_char(0) == '+' {
        1
    } else {
        0
    };
    let ghost digits = index_digits(text@);
    if start == n {
        return None;
    }
    let mut value: usize = 0;
    let mut i: usize = start;
    while i < n
        invariant
            n == text@.len(),
            start <= i <= n,
            digits == text@.subrange(start as int, n as int),
            digits == index_digits(text@),
            forall|k: int| 0 <= k < i - start ==> is_digit(#[trigger] digits[k]),
            value == decimal_value(digits.subrange(0, i - start)),
        decreases n - i,
    {
        let c = text.get_char(i);
        assert(c == digits[i - start]);
        if !('0' <= c && c <= '9') {
            return None;
        }
        let digit: usize = (c as u32 - '0' as u32) as usize;
        let ghost longer = digits.subrange(0, i - start + 1);
        assert(longer.drop_last() =~= digits.subrange(0, i - start));
        let grown = match value.checked_mul(10) {
            Some(tens) => tens.checked_add(digit),
            None => None,
        };
        match grown {
            Some(v) => {
                value = v;
            },
            None => {
                proof {
                    if forall|k: int| 0 <= k < digits.len() ==> is_digit(#[trigger] digits[k]) {
                        lemma_decimal_value_grows(digits, i - start + 1);
                    }
                }
                return None;
            },
        }
        i += 1;
    }
    assert(digits.subrange(0, i - start) =~= digits);
    Some(value)
}

impl Namespace {
    /// The name of the field, if this is a step into an object.
    pub fn as_object(&self) -> (r: Option<&String>)
        ensures
            match r {
                Some(id) => self@ == (Segment::Object { id: id@ }),
                None => self@ is Array,
            },
    {
        match self {
            Namespace::Object { id } => Some(id),
            _ => None,
        }
    }

    /// The name of the field and the index, if this is a step into an array.
    pub fn as_array(&self) -> (r: Option<(&String, &usize)>)
        ensures
            match r {
                Some((id, index)) => self@ == (Segment::Array { id: id@, index: *index }),
                None => self@ is Object,
            },
    {
        match self {
            Namespace::Array { id, index } => Some((id, index)),
            _ => None,
        }
    }

    /// Whether this is a step into an object.
    pub fn is_object(&self) -> (r: bool)
        ensures
            r == (self@ is Object),
    {
        match self {
            Namespace::Object { .. } => true,
            _ => false,
        }
    }

    /// Whether this is a step into an array.
    pub fn is_array(&self) -> (r: bool)
        ensures
            r == (self@ is Array),
    {
        match self {
            Namespace::Array { .. } => true,
            _ => false,
        }
    }

    /// The name of the field that the step goes through.
    pub fn id(&self) -> (r: &String)
        ensures
            r@ == self@.id(),
    {
        match self {
            Namespace::Object { id } => id,
            Namespace::Array { id, .. } => id,
        }
    }

    /// Reads one step from its text.
    fn parse_step(text: &str) -> (r: Option<Namespace>)
        ensures
            match r {
                Some(step) => segment_of(text@) == Some(step@),
                None => segment_of(text@) is None,
            },
    {
        let n = text.unicode_len();
        let open = find_char(text, '[', 0);
        proof {
            lemma_first_index(text@, '[', open as int);
        }
        if open < n {
            match parse_index(text.substring_char(open + 1, n)) {
                Some(index) => Some(
                    Namespace::Array { id: text.substring_char(0, open).to_owned(), index },
                ),
                None => None,
            }
        } else {
            Some(Namespace::Object { id: text.to_owned() })
        }
    }

    /// Reads a path such as `object.nested[0][1].field`.
    ///
    /// The text is cut at every `.` and after every `]`; a piece with a `[`
    /// is a step into an array, any other piece a step into an object. A
    /// name may be empty: the empty text is the one step into the field with
    /// the empty name, and `a..b` has such a step between `a` and `b`. So
    /// every path has at least one step. A `[` or `]` always belongs to an
    /// index: a field whose name holds one cannot be written as text.
    ///
    /// Fails with `InvalidNamespaceArrayIndex` at the first step whose index
    /// is not a number that fits the machine word.
    pub fn parse(input: &str) -> (r: Result<Vec<Namespace>, TransformError>)
        ensures
            match r {
                Ok(path) => parsed(input@) == Ok::<Seq<Segment>, Seq<char>>(path_view(path@))
                    && path@.len() > 0,
                Err(e) => parsed(input@) is Err && e@ == Failure::InvalidNamespaceArrayIndex(
                    parsed(input@)->Err_0,
                ),
            },
    {
        let pieces = split_text(input, '.');
        let mut texts: Vec<String> = Vec::new();
        let mut k: usize = 0;
        while k < pieces.len()
            invariant
                0 <= k <= pieces.len(),
                texts_view(texts@) == step_texts_of(texts_view(pieces@).take(k as int)),
            decreases pieces.len() - k,
        {
            let parts = split_text(pieces[k].as_str(), ']');
            let ghost all = texts_view(pieces@);
            let ghost before = texts_view(texts@);
            assert(all.take(k + 1).drop_last() =~= all.take(k as int));
            let mut count: usize = parts.len();
            assert(split(pieces[k as int]@, ']').len() > 0);
            if count > 1 && parts[count - 1].as_str().unicode_len() == 0 {
                count = count - 1;
            }
            let mut m: usize = 0;
            while m < count
                invariant
                    0 <= m <= count <= parts.len(),
                    texts_view(texts@) == before + texts_view(parts@).take(m as int),
                decreases count - m,
            {
                let ghost was = texts_view(texts@);
                texts.push(parts[m].clone());
                assert(texts_view(texts@) =~= was.push(parts[m as int]@));
                m += 1;
            }
            k += 1;
        }
        assert(texts_view(pieces@).take(k as int) =~= texts_view(pieces@));
        let ghost all_texts = texts_view(texts@);
        let mut path: Vec<Namespace> = Vec::new();
        let mut t: usize = 0;
        assert(path_view(path@) =~= Seq::<Segment>::empty());
        while t < texts.len()
            invariant
                0 <= t <= texts.len(),
                all_texts == texts_view(texts@),
                all_texts == step_texts(input@),
                segments_of(all_texts.take(t as int)) == Ok::<Seq<Segment>, Seq<char>>(
                    path_view(path@),
                ),
            decreases texts.len() - t,
        {
            assert(all_texts.take(t + 1).drop_last() =~= all_texts.take(t as int));
            let ghost was = path_view(path@);
            match Self::parse_step(texts[t].as_str()) {
                Some(step) => {
                    path.push(step);
                    assert(path_view(path@) =~= was.push(step@));
                },
                None => {
                    let n = texts[t].as_str().unicode_len();
                    let open = find_char(texts[t].as_str(), '[', 0);
                    proof {
                        lemma_first_index(texts[t as int]@, '[', open as int);
                        lemma_segments_fail(all_texts, t as int);
                    }
                    let bad = texts[t].as_str().substring_char(open + 1, n).to_owned();
                    return Err(TransformError::InvalidNamespaceArrayIndex(bad));
                },
            }
            t += 1;
        }
        assert(all_texts.take(t as int) =~= all_texts);
        proof {
            lemma_parsed_has_a_step(input@);
        }
        Ok(path)
    }
}

/// The steps that a list of step texts denotes are as many as the texts.
proof fn lemma_segments_count(texts: Seq<Seq<char>>)
    ensures
        segments_of(texts) is Ok ==> segments_of(texts)->Ok_0.len() == texts.len(),
    decreases texts.len(),
{
    if texts.len() > 0 {
        lemma_segments_count(texts.drop_last());
    }
}

/// Pieces hold at least as many step texts as there are pieces.
proof fn lemma_step_texts_count(pieces: Seq<Seq<char>>)
    ensures
        step_texts_of(pieces).len() >= pieces.len(),
    decreases pieces.len(),
{
    if pieces.len() > 0 {
        lemma_step_texts_count(pieces.drop_last());
        assert(split(pieces.last(), ']').len() > 0);
    }
}

/// Every path has at least one step: the empty text is the step into the
/// field with the empty name.
pub proof fn lemma_parsed_has_a_step(s: Seq<char>)
    ensures
        parsed(s) is Ok ==> parsed(s)->Ok_0.len() > 0,
{
    assert(split(s, '.').len() > 0);
    lemma_step_texts_count(split(s, '.'));
    lemma_segments_count(step_texts(s));
}

/// The empty text is the path of one step, into the field with the empty
/// name.
pub proof fn lemma_parsed_empty()
    ensures
        parsed(Seq::empty()) == Ok::<Seq<Segment>, Seq<char>>(
            seq![Segment::Object { id: Seq::empty() }],
        ),
{
    let nothing = Seq::<char>::empty();
    assert(split(nothing, '.') =~= seq![nothing]);
    assert(split(nothing, ']') =~= seq![nothing]);
    assert(piece_texts(nothing) =~= seq![nothing]);
    assert(seq![nothing].drop_last() =~= Seq::<Seq<char>>::empty());
    assert(step_texts_of(Seq::<Seq<char>>::empty()) =~= Seq::<Seq<char>>::empty());
    assert(step_texts_of(seq![nothing]) =~= seq![nothing]);
    assert(segment_of(nothing) == Some(Segment::Object { id: nothing }));
    assert(segments_of(Seq::<Seq<char>>::empty()) == Ok::<Seq<Segment>, Seq<char>>(Seq::empty()));
    assert(segments_of(seq![nothing]) == Ok::<Seq<Segment>, Seq<char>>(
        Seq::<Segment>::empty().push(Segment::Object { id: nothing }),
    ));
    assert(Seq::<Segment>::empty().push(Segment::Object { id: nothing }) =~= seq![
        Segment::Object { id: nothing },
    ]);
}

/// Once a prefix of the texts has failed, the whole list fails in the same way.
proof fn lemma_segments_fail(texts: Seq<Seq<char>>, t: int)
    requires
        0 <= t < texts.len(),
        segments_of(texts.take(t + 1)) is Err,
    ensures
        segments_of(texts) == segments_of(texts.take(t + 1)),
    decreases texts.len() - t,
{
    if t + 1 == texts.len() {
        assert(texts.take(t + 1) =~= texts);
    } else {
        assert(texts.take(t + 2).drop_last() =~= texts.take(t + 1));
        lemma_segments_fail(texts, t + 1);
    }
}

} // verus!
