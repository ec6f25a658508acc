use vstd::prelude::*;

use crate::path::ElementView;

verus! {

/// The largest mandatory or optional count that a wildcard may be written with.
pub const MAX_WILDCARD_COUNT: usize = 10;

/// The optional count that `**` stands for.
pub const DOUBLE_STAR_OPTIONAL: usize = 9;

/// Why a path or a path element could not be read.
#[derive(Debug, Clone, Copy, PartialEq, Eq, Structural)]
pub enum PathParseError {
    /// The path does not start with `/`.
    MissingLeadingSlash,
    /// The path ends with `/` and is not `/` itself.
    TrailingSlash,
    /// A segment between two slashes is empty.
    EmptyElement,
    /// A segment starts with `*` but is neither `*`, `**` nor `*M,O`.
    MalformedWildcard,
    /// The mandatory count of `*M,O` is not a number.
    InvalidMandatoryCount,
    /// The optional count of `*M,O` is not a number.
    InvalidOptionalCount,
    /// The mandatory count of `*M,O` exceeds the limit.
    MandatoryCountTooLarge,
    /// The optional count of `*M,O` exceeds the limit.
    OptionalCountTooLarge,
}

pub open spec fn is_digit(c: char) -> bool {
    '0' <= c && c <= '9'
}

pub open spec fn digit_value(c: char) -> nat {
    (c as u32 - '0' as u32) as nat
}

/// The number that the decimal digits `s` spell.
pub open spec fn digits_value(s: Seq<char>) -> nat
    decreases s.len(),
{
    if s.len() == 0 {
        0
    } else {
        digits_value(s.drop_last()) * 10 + digit_value(s.last())
    }
}

pub open spec fn all_digits(s: Seq<char>) -> bool {
    forall|i: int| 0 <= i < s.len() ==> is_digit(#[trigger] s[i])
}

/// The count that `s` writes: one or more decimal digits, whose value fits
/// a `usize`.
pub open spec fn count_value(s: Seq<char>) -> Option<usize> {
    if s.len() > 0 && all_digits(s) && digits_value(s) <= usize::MAX {
        Some(digits_value(s) as usize)
    } else {
        None
    }
}

/// The index of the first `c` in `s`, or -1 when there is none.
pub open spec fn index_of(s: Seq<char>, c: char) -> int
    decreases s.len(),
{
    if s.len() == 0 {
        -1
    } else if s[0] == c {
        0
    } else {
        let r = index_of(s.drop_first(), c);
        if r < 0 {
            -1
        } else {
            r + 1
        }
    }
}

/// The element that the text of one segment denotes.
pub open spec fn parse_element(s: Seq<char>) -> Result<ElementView, PathParseError> {
    if s.len() == 0 {
        Err(PathParseError::EmptyElement)
    } else if s[0] != '*' {
        Ok(ElementView::Name(s))
    } else if s.len() == 1 {
        Ok(ElementView::Wildcard((1, 0)))
    } else if s.len() == 2 && s[1] == '*' {
        Ok(ElementView::Wildcard((0, DOUBLE_STAR_OPTIONAL)))
    } else {
        let rest = s.drop_first();
        let k = index_of(rest, ',');
        if k < 0 {
            Err(PathParseError::MalformedWildcard)
        } else {
            let m = count_value(rest.subrange(0, k));
            let o = count_value(rest.subrange(k + 1, rest.len() as int));
            if m is None {
                Err(PathParseError::InvalidMandatoryCount)
            } else if o is None {
                Err(PathParseError::InvalidOptionalCount)
            } else if m.unwrap() > MAX_WILDCARD_COUNT {
                Err(PathParseError::MandatoryCountTooLarge)
            } else if o.unwrap() > MAX_WILDCARD_COUNT {
                Err(PathParseError::OptionalCountTooLarge)
            } else {
                Ok(ElementView::Wildcard((m.unwrap(), o.unwrap())))
            }
        }
    }
}

/// `s` without its leading slashes.
pub open spec fn strip_slashes(s: Seq<char>) -> Seq<char>
    decreases s.len(),
{
    if s.len() > 0 && s[0] == '/' {
        strip_slashes(s.drop_first())
    } else {
        s
    }
}

/// The pieces of `t` between occurrences of `c`; `t` itself when it holds
/// no `c`.
pub open spec fn split_on(t: Seq<char>, c: char) -> Seq<Seq<char>>
    decreases t.len(),
{
    if t.len() == 0 {
        seq![Seq::empty()]
    } else {
        let prev = split_on(t.drop_last(), c);
        if t.last() == c {
            prev.push(Seq::empty())
        } else {
            prev.update(prev.len() - 1, prev.last().push(t.last()))
        }
    }
}

/// The elements that the segments `segs` denote, or the first error.
pub open spec fn parse_segments(segs: Seq<Seq<char>>) -> Result<Seq<ElementView>, PathParseError>
    decreases segs.len(),
{
    if segs.len() == 0 {
        Ok(Seq::empty())
    } else {
        match parse_segments(segs.drop_last()) {
            Err(e) => Err(e),
            Ok(xs) => match parse_element(segs.last()) {
                Err(e) => Err(e),
                Ok(x) => Ok(xs.push(x)),
            },
        }
    }
}

/// The path that the text `s` denotes: `/` alone is the root; otherwise the
/// leading slashes are passed over and each segment is read in turn.
pub open spec fn parse_path(s: Seq<char>) -> Result<Seq<ElementView>, PathParseError> {
    if s.len() == 0 || s[0] != '/' {
        Err(PathParseError::MissingLeadingSlash)
    } else if s.len() > 1 && s.last() == '/' {
        Err(PathParseError::TrailingSlash)
    } else {
        let t = strip_slashes(s);
        if t.len() == 0 {
            Ok(seq![ElementView::Root])
        } else {
            match parse_segments(split_on(t, '/')) {
                Ok(xs) => Ok(seq![ElementView::Root] + xs),
                Err(e) => Err(e),
            }
        }
    }
}

pub proof fn lemma_index_of(s: Seq<char>, c: char, k: int)
    requires
        0 <= k <= s.len(),
        forall|i: int| 0 <= i < k ==> s[i] != c,
        k < s.len() ==> s[k] == c,
    ensures
        index_of(s, c) == if k < s.len() { k } else { -1 },
    decreases k,
{
    if k > 0 {
        lemma_index_of(s.drop_first(), c, k - 1);
    }
}

pub proof fn lemma_digits_prefix(s: Seq<char>, k: int)
    requires
        0 <= k <= s.len(),
    ensures
        digits_value(s.subrange(0, k)) <= digits_value(s),
    decreases s.len(),
{
    if k < s.len() {
        lemma_digits_prefix(s.drop_last(), k);
        assert(s.drop_last().subrange(0, k) =~= s.subrange(0, k));
    } else {
        assert(s.subrange(0, k) =~= s);
    }
}

pub proof fn lemma_parse_segments_error(segs: Seq<Seq<char>>, k: int, e: PathParseError)
    requires
        0 <= k <= segs.len(),
        parse_segments(segs.subrange(0, k)) == Err::<Seq<ElementView>, PathParseError>(e),
    ensures
        parse_segments(segs) == Err::<Seq<ElementView>, PathParseError>(e),
    decreases segs.len() - k,
{
    if k < segs.len() {
        let next = segs.subrange(0, k + 1);
        assert(next.drop_last() =~= segs.subrange(0, k));
        lemma_parse_segments_error(segs, k + 1, e);
    } else {
        assert(segs.subrange(0, k) =~= segs);
    }
}

/// The character of the decimal digit `d`.
pub open spec fn digit_char(d: nat) -> char {
    if d == 0 {
        '0'
    } else if d == 1 {
        '1'
    } else if d == 2 {
        '2'
    } else if d == 3 {
        '3'
    } else if d == 4 {
        '4'
    } else if d == 5 {
        '5'
    } else if d == 6 {
        '6'
    } else if d == 7 {
        '7'
    } else if d == 8 {
        '8'
    } else {
        '9'
    }
}

/// `n` in decimal, without leading zeros.
pub open spec fn decimal(n: nat) -> Seq<char>
    decreases n,
{
    if n < 10 {
        seq![digit_char(n)]
    } else {
        decimal(n / 10).push(digit_char(n % 10))
    }
}

/// The text of one element: `*` for one mandatory segment, `**` for the
/// optional wildcard that `**` reads as, `*M,O` for any other wildcard, the
/// name itself for a name, nothing for the root.
pub open spec fn element_text(e: ElementView) -> Seq<char> {
    match e {
        ElementView::Root => Seq::empty(),
        ElementView::Name(n) => n,
        ElementView::Wildcard(w) => if w.0 == 1 && w.1 == 0 {
            seq!['*']
        } else if w.0 == 0 && w.1 == DOUBLE_STAR_OPTIONAL {
            seq!['*', '*']
        } else {
            seq!['*'] + decimal(w.0 as nat) + seq![','] + decimal(w.1 as nat)
        },
    }
}

/// `p` without its leading root markers.
pub open spec fn drop_roots(p: Seq<ElementView>) -> Seq<ElementView>
    decreases p.len(),
{
    if p.len() > 0 && p[0] == ElementView::Root {
        drop_roots(p.drop_first())
    } else {
        p
    }
}

/// The texts of the elements `r`, separated by slashes.
pub open spec fn joined(r: Seq<ElementView>) -> Seq<char>
    decreases r.len(),
{
    if r.len() == 0 {
        Seq::empty()
    } else if r.len() == 1 {
        element_text(r[0])
    } else {
        joined(r.drop_last()) + seq!['/'] + element_text(r.last())
    }
}

/// The text of a path: a slash before each element after the leading root
/// markers; `/` for the root path itself, nothing for the empty path.
pub open spec fn path_text(p: Seq<ElementView>) -> Seq<char> {
    let r = drop_roots(p);
    if r.len() == 0 {
        if p.len() > 0 {
            seq!['/']
        } else {
            Seq::empty()
        }
    } else {
        seq!['/'] + joined(r)
    }
}

/// A name that reads back as itself: not empty, not starting with `*`, and
/// free of slashes.
pub open spec fn name_ok(n: Seq<char>) -> bool {
    &&& n.len() > 0
    &&& n[0] != '*'
    &&& forall|i: int| 0 <= i < n.len() ==> #[trigger] n[i] != '/'
}

/// An element that may follow the root in a path read from text.
pub open spec fn element_ok(e: ElementView) -> bool {
    match e {
        ElementView::Root => false,
        ElementView::Name(n) => name_ok(n),
        ElementView::Wildcard(w) => w.0 <= MAX_WILDCARD_COUNT && w.1 <= MAX_WILDCARD_COUNT,
    }
}

/// A path that text can denote: the root marker, then elements that read
/// back as themselves.
pub open spec fn path_ok(p: Seq<ElementView>) -> bool {
    &&& p.len() >= 1
    &&& p[0] == ElementView::Root
    &&& forall|i: int| 1 <= i < p.len() ==> element_ok(#[trigger] p[i])
}

proof fn lemma_digit_char(d: nat)
    requires
        d < 10,
    ensures
        is_digit(digit_char(d)),
        digit_value(digit_char(d)) == d,
{
    assert('0' as u32 == 48);
    assert('9' as u32 == 57);
}

proof fn lemma_decimal(n: nat)
    ensures
        decimal(n).len() >= 1,
        all_digits(decimal(n)),
        digits_value(decimal(n)) == n,
    decreases n,
{
    if n < 10 {
        lemma_digit_char(n);
        let d = decimal(n);
        assert(d.drop_last() =~= Seq::<char>::empty());
        assert(digits_value(Seq::<char>::empty()) == 0);
        assert(digits_value(d) == n);
    } else {
        lemma_decimal(n / 10);
        lemma_digit_char(n % 10);
        let d = decimal(n);
        assert(d.drop_last() =~= decimal(n / 10));
        assert(digits_value(d) == (n / 10) * 10 + n % 10);
        assert((n / 10) * 10 + n % 10 == n) by (nonlinear_arith);
        assert forall|i: int| 0 <= i < d.len() implies is_digit(#[trigger] d[i]) by {
            if i < d.len() - 1 {
                assert(d[i] == decimal(n / 10)[i]);
            }
        }
    }
}

proof fn lemma_count_of_decimal(n: usize)
    ensures
        count_value(decimal(n as nat)) == Some(n),
{
    lemma_decimal(n as nat);
    let d = decimal(n as nat);
    assert(is_digit(d[0]));
}

proof fn lemma_element_round_trip(e: ElementView)
    requires
        element_ok(e),
    ensures
        parse_element(element_text(e)) == Ok::<ElementView, PathParseError>(e),
        element_text(e).len() > 0,
        element_text(e)[0] != '/',
        element_text(e)[element_text(e).len() - 1] != '/',
        forall|i: int| 0 <= i < element_text(e).len() ==> #[trigger] element_text(e)[i] != '/',
{
    match e {
        ElementView::Name(n) => {},
        ElementView::Wildcard(w) => {
            if !(w.0 == 1 && w.1 == 0) && !(w.0 == 0 && w.1 == DOUBLE_STAR_OPTIONAL) {
                let dm = decimal(w.0 as nat);
                let dop = decimal(w.1 as nat);
                lemma_decimal(w.0 as nat);
                lemma_decimal(w.1 as nat);
                lemma_count_of_decimal(w.0);
                lemma_count_of_decimal(w.1);
                let text = element_text(e);
                let rest = text.drop_first();
                assert(rest =~= dm + seq![','] + dop);
                assert forall|i: int| 0 <= i < dm.len() implies rest[i] != ',' by {
                    assert(is_digit(dm[i]));
                }
                lemma_index_of(rest, ',', dm.len() as int);
                assert(rest.subrange(0, dm.len() as int) =~= dm);
                assert(rest.subrange(dm.len() as int + 1, rest.len() as int) =~= dop);
                assert forall|i: int| 0 <= i < text.len() implies #[trigger] text[i] != '/' by {
                    if 1 <= i < 1 + dm.len() {
                        assert(text[i] == dm[i - 1]);
                        assert(is_digit(dm[i - 1]));
                    } else if i > 1 + dm.len() {
                        assert(text[i] == dop[i - 2 - dm.len()]);
                        assert(is_digit(dop[i - 2 - dm.len()]));
                    }
                }
            }
        },
        ElementView::Root => {},
    }
}

/// Splitting a text that holds no separator gives the text itself.
proof fn lemma_split_single(b: Seq<char>, c: char)
    requires
        forall|i: int| 0 <= i < b.len() ==> #[trigger] b[i] != c,
    ensures
        split_on(b, c) == seq![b],
    decreases b.len(),
{
    if b.len() > 0 {
        lemma_split_single(b.drop_last(), c);
        assert(b[b.len() - 1] != c);
        assert(b.drop_last().push(b.last()) =~= b);
        assert(split_on(b, c) =~= seq![b]);
    } else {
        assert(b =~= Seq::<char>::empty());
    }
}

/// A separator followed by a piece free of it adds that piece.
proof fn lemma_split_append(a: Seq<char>, b: Seq<char>, c: char)
    requires
        forall|i: int| 0 <= i < b.len() ==> #[trigger] b[i] != c,
    ensures
        split_on(a + seq![c] + b, c) == split_on(a, c).push(b),
    decreases b.len(),
{
    let x = a + seq![c] + b;
    if b.len() == 0 {
        assert(x =~= a.push(c));
        assert(x.drop_last() =~= a);
        assert(x.last() == c);
        assert(b =~= Seq::<char>::empty());
    } else {
        let b0 = b.drop_last();
        assert forall|i: int| 0 <= i < b0.len() implies #[trigger] b0[i] != c by {
            assert(b0[i] == b[i]);
        }
        lemma_split_append(a, b0, c);
        assert(x.drop_last() =~= a + seq![c] + b0);
        assert(x.last() == b[b.len() - 1]);
        assert(b0.push(b.last()) =~= b);
        assert(split_on(x, c) =~= split_on(a, c).push(b));
    }
}

/// The pieces of the joined texts are the texts, and the joined text of
/// elements that read back as themselves starts with the first one.
proof fn lemma_split_joined(r: Seq<ElementView>)
    requires
        r.len() >= 1,
        forall|i: int| 0 <= i < r.len() ==> element_ok(#[trigger] r[i]),
    ensures
        split_on(joined(r), '/') == r.map_values(|e: ElementView| element_text(e)),
        joined(r).len() > 0,
        joined(r)[0] == element_text(r[0])[0],
        joined(r)[joined(r).len() - 1] == element_text(r.last())[element_text(r.last()).len() - 1],
    decreases r.len(),
{
    lemma_element_round_trip(r.last());
    if r.len() == 1 {
        lemma_split_single(element_text(r[0]), '/');
        assert(r.map_values(|e: ElementView| element_text(e)) =~= seq![element_text(r[0])]);
    } else {
        let init = r.drop_last();
        assert forall|i: int| 0 <= i < init.len() implies element_ok(#[trigger] init[i]) by {
            assert(init[i] == r[i]);
        }
        lemma_split_joined(init);
        lemma_split_append(joined(init), element_text(r.last()), '/');
        assert(r.map_values(|e: ElementView| element_text(e)) =~= init.map_values(
            |e: ElementView| element_text(e),
        ).push(element_text(r.last())));
        assert(init[0] == r[0]);
    }
}

proof fn lemma_parse_texts(r: Seq<ElementView>)
    requires
        forall|i: int| 0 <= i < r.len() ==> element_ok(#[trigger] r[i]),
    ensures
        parse_segments(r.map_values(|e: ElementView| element_text(e))) == Ok::<
            Seq<ElementView>,
            PathParseError,
        >(r),
    decreases r.len(),
{
    if r.len() > 0 {
        let init = r.drop_last();
        assert forall|i: int| 0 <= i < init.len() implies element_ok(#[trigger] init[i]) by {
            assert(init[i] == r[i]);
        }
        lemma_parse_texts(init);
        lemma_element_round_trip(r.last());
        let texts = r.map_values(|e: ElementView| element_text(e));
        assert(texts.drop_last() =~= init.map_values(|e: ElementView| element_text(e)));
        assert(init.push(r.last()) =~= r);
    } else {
        assert(r.map_values(|e: ElementView| element_text(e)) =~= Seq::<Seq<char>>::empty());
        assert(r =~= Seq::<ElementView>::empty());
    }
}

/// Reading back the text of a path that text can denote gives the same
/// path.
pub proof fn lemma_round_trip(p: Seq<ElementView>)
    requires
        path_ok(p),
    ensures
        parse_path(path_text(p)) == Ok::<Seq<ElementView>, PathParseError>(p),
{
    let r = p.drop_first();
    assert forall|i: int| 0 <= i < r.len() implies element_ok(#[trigger] r[i]) by {
        assert(r[i] == p[i + 1]);
    }
    if r.len() > 0 {
        assert(r[0] == p[1]);
        assert(element_ok(r[0]));
    }
    assert(drop_roots(r) == r);
    assert(drop_roots(p) == r);
    let s = path_text(p);
    if r.len() == 0 {
        assert(s =~= seq!['/']);
        assert(s.drop_first() =~= Seq::<char>::empty());
        assert(strip_slashes(Seq::<char>::empty()) == Seq::<char>::empty());
        assert(strip_slashes(s) == Seq::<char>::empty());
        assert(p =~= seq![ElementView::Root]);
    } else {
        lemma_split_joined(r);
        lemma_element_round_trip(r[0]);
        lemma_element_round_trip(r.last());
        lemma_parse_texts(r);
        let j = joined(r);
        assert(s == seq!['/'] + j);
        assert(s.drop_first() =~= j);
        assert(strip_slashes(j) == j);
        assert(strip_slashes(s) == j);
        assert(s.last() == j.last());
        assert(split_on(j, '/') == r.map_values(|e: ElementView| element_text(e)));
        assert(parse_segments(split_on(j, '/')) == Ok::<Seq<ElementView>, PathParseError>(r));
        assert(p =~= seq![ElementView::Root] + r);
    }
}

/// Every piece of a split is free of the separator.
proof fn lemma_split_pieces(t: Seq<char>, c: char)
    ensures
        split_on(t, c).len() >= 1,
        forall|k: int, i: int|
            0 <= k < split_on(t, c).len() && 0 <= i < split_on(t, c)[k].len() ==> #[trigger] split_on(
                t,
                c,
            )[k][i] != c,
    decreases t.len(),
{
    if t.len() > 0 {
        lemma_split_pieces(t.drop_last(), c);
        let prev = split_on(t.drop_last(), c);
        let cur = split_on(t, c);
        assert forall|k: int, i: int| 0 <= k < cur.len() && 0 <= i < cur[k].len() implies #[trigger] cur[k][i] != c by {
            if t.last() == c {
                if k < prev.len() {
                    assert(cur[k] == prev[k]);
                }
            } else {
                if k < prev.len() - 1 {
                    assert(cur[k] == prev[k]);
                } else if i < prev.last().len() {
                    assert(cur[k][i] == prev[k][i]);
                }
            }
        }
    }
}

proof fn lemma_parsed_segments_ok(segs: Seq<Seq<char>>)
    requires
        parse_segments(segs) is Ok,
        forall|k: int, i: int| 0 <= k < segs.len() && 0 <= i < segs[k].len() ==> #[trigger] segs[k][i] != '/',
    ensures
        parse_segments(segs).unwrap().len() == segs.len(),
        forall|i: int| 0 <= i < segs.len() ==> element_ok(#[trigger] parse_segments(segs).unwrap()[i]),
    decreases segs.len(),
{
    if segs.len() > 0 {
        let init = segs.drop_last();
        assert forall|k: int, i: int| 0 <= k < init.len() && 0 <= i < init[k].len() implies #[trigger] init[k][i] != '/' by {
            assert(init[k] == segs[k]);
        }
        lemma_parsed_segments_ok(init);
        let last = segs.last();
        assert forall|i: int| 0 <= i < last.len() implies #[trigger] last[i] != '/' by {
            assert(segs[segs.len() - 1][i] != '/');
        }
        let xs = parse_segments(segs).unwrap();
        let prev = parse_segments(init).unwrap();
        assert forall|i: int| 0 <= i < segs.len() implies element_ok(#[trigger] xs[i]) by {
            if i < segs.len() - 1 {
                assert(xs[i] == prev[i]);
            }
        }
    }
}

/// Every path read from text is one that text can denote; so writing it out
/// and reading it again gives it back: its text is the canonical spelling
/// of the text it was read from.
pub proof fn lemma_parse_then_write(s: Seq<char>)
    requires
        parse_path(s) is Ok,
    ensures
        path_ok(parse_path(s).unwrap()),
        parse_path(path_text(parse_path(s).unwrap())) == parse_path(s),
{
    let t = strip_slashes(s);
    let p = parse_path(s).unwrap();
    if t.len() > 0 {
        lemma_split_pieces(t, '/');
        let segs = split_on(t, '/');
        lemma_parsed_segments_ok(segs);
        let xs = parse_segments(segs).unwrap();
        assert(p == seq![ElementView::Root] + xs);
        assert forall|i: int| 1 <= i < p.len() implies element_ok(#[trigger] p[i]) by {
            assert(p[i] == xs[i - 1]);
        }
    }
    lemma_round_trip(p);
}

} // verus!
