use vstd::prelude::*;
use vstd::string::{StrSliceExecFns, StringExecFns};

use crate::grammar::{
    all_digits, count_value, decimal, digit_char, digits_value, drop_roots, element_text, index_of,
    is_digit, joined, path_text, lemma_digits_prefix, lemma_index_of,
    lemma_parse_segments_error, parse_element, parse_path, parse_segments, split_on,
    strip_slashes, PathParseError, DOUBLE_STAR_OPTIONAL, MAX_WILDCARD_COUNT,
};

verus! {

/// One component of a [`Path`].
#[derive(Debug)]
pub enum PathElement {
    /// The start of an absolute path. A tree has a single root node, so every
    /// absolute path starts here; it may not appear anywhere else.
    Root,
    /// A literal segment, matched by exact equality.
    Name(String),
    /// `(min, opt)`: matches at least `min` and at most `min + opt` segments.
    Wildcard((usize, usize)),
}

/// The mathematical value of a [`PathElement`].
pub enum ElementView {
    Root,
    Name(Seq<char>),
    Wildcard((usize, usize)),
}

impl View for PathElement {
    type V = ElementView;

    open spec fn view(&self) -> ElementView {
        match self {
            PathElement::Root => ElementView::Root,
            PathElement::Name(n) => ElementView::Name(n@),
            PathElement::Wildcard(w) => ElementView::Wildcard(*w),
        }
    }
}

impl PartialEq for PathElement {
    fn eq(&self, other: &PathElement) -> (r: bool) {
        match (self, other) {
            (PathElement::Root, PathElement::Root) => true,
            (PathElement::Name(a), PathElement::Name(b)) => *a == *b,
            (PathElement::Wildcard(a), PathElement::Wildcard(b)) => a.0 == b.0 && a.1 == b.1,
            _ => false,
        }
    }
}

impl vstd::std_specs::cmp::PartialEqSpecImpl for PathElement {
    open spec fn obeys_eq_spec() -> bool {
        true
    }

    open spec fn eq_spec(&self, other: &PathElement) -> bool {
        self@ == other@
    }
}

impl PathElement {
    /// A copy of this element with the same value.
    pub fn duplicate(&self) -> (r: PathElement)
        ensures
            r@ == self@,
    {
        match self {
            PathElement::Root => PathElement::Root,
            PathElement::Name(n) => PathElement::Name(n.clone()),
            PathElement::Wildcard(w) => PathElement::Wildcard(*w),
        }
    }

    /// Whether this element is the root marker.
    pub fn is_root(&self) -> (r: bool)
        ensures
            r == (self@ == ElementView::Root),
    {
        match self {
            PathElement::Root => true,
            _ => false,
        }
    }
}

/// An ordered sequence of path elements: the selector that data is
/// published on and subscribed with.
pub struct Path {
    elements: Vec<PathElement>,
}

impl View for Path {
    type V = Seq<ElementView>;

    closed spec fn view(&self) -> Seq<ElementView> {
        self.elements@.map_values(|e: PathElement| e@)
    }
}

impl Path {
    /// A path made of copies of the given elements, in order.
    pub fn from_elements(elements: &[PathElement]) -> (r: Path)
        ensures
            r@ == elements@.map_values(|e: PathElement| e@),
    {
        let mut v: Vec<PathElement> = Vec::new();
        let mut i: usize = 0;
        while i < elements.len()
            invariant
                i <= elements@.len(),
                v@.len() == i,
                forall|j: int| 0 <= j < i ==> #[trigger] v@[j]@ == elements@[j]@,
            decreases elements@.len() - i,
        {
            v.push(elements[i].duplicate());
            i = i + 1;
        }
        assert(v@.map_values(|e: PathElement| e@) =~= elements@.map_values(|e: PathElement| e@));
        Path { elements: v }
    }

    /// The elements of this path, in order.
    pub fn elements(&self) -> (r: &Vec<PathElement>)
        ensures
            r@.map_values(|e: PathElement| e@) == self@,
    {
        &self.elements
    }

    /// Whether root markers only lead this path, so that it can be
    /// inserted into a tree.
    pub fn is_insertable(&self) -> (r: bool)
        ensures
            r == crate::path_tree::insertable(self@),
    {
        let mut seen_other = false;
        let mut i: usize = 0;
        while i < self.elements.len()
            invariant
                i <= self@.len(),
                seen_other == exists|k: int| 0 <= k < i && self@[k] != ElementView::Root,
                crate::path_tree::insertable(self@.subrange(0, i as int)),
            decreases self@.len() - i,
        {
            let root = self.elements[i].is_root();
            assert(self.elements@[i as int]@ == self@[i as int]);
            if root && seen_other {
                let ghost k = choose|k: int| 0 <= k < i && self@[k] != ElementView::Root;
                assert(!crate::path_tree::insertable(self@)) by {
                    assert(self@[i as int] == ElementView::Root);
                }
                return false;
            }
            if !root {
                seen_other = true;
            }
            i = i + 1;
            assert(crate::path_tree::insertable(self@.subrange(0, i as int))) by {
                let sub = self@.subrange(0, i as int);
                assert forall|a: int, b: int| 0 <= a < b < sub.len() && sub[b] == ElementView::Root implies sub[a] == ElementView::Root by {
                    if b < i - 1 {
                        assert(self@.subrange(0, i - 1)[a] == sub[a]);
                        assert(self@.subrange(0, i - 1)[b] == sub[b]);
                    } else if sub[a] != ElementView::Root {
                        assert(self@[a] != ElementView::Root);
                    }
                }
            }
        }
        assert(self@.subrange(0, i as int) =~= self@);
        true
    }

    /// The number of elements.
    pub fn len(&self) -> (r: usize)
        ensures
            r == self@.len(),
    {
        self.elements.len()
    }

    /// The element at `i`.
    pub fn get(&self, i: usize) -> (r: &PathElement)
        requires
            i < self@.len(),
        ensures
            r@ == self@[i as int],
    {
        &self.elements[i]
    }
}

impl<'a> From<&'a [PathElement]> for Path {
    fn from(elements: &'a [PathElement]) -> Path {
        Path::from_elements(elements)
    }
}

impl<'a> vstd::std_specs::convert::FromSpecImpl<&'a [PathElement]> for Path {
    open spec fn obeys_from_spec() -> bool {
        false
    }

    open spec fn from_spec(v: &'a [PathElement]) -> Path {
        arbitrary()
    }
}

/// The characters of `s`, in order.
fn chars_of(s: &str) -> (r: Vec<char>)
    ensures
        r@ == s@,
{
    let n = s.unicode_len();
    let mut r: Vec<char> = Vec::new();
    let mut i: usize = 0;
    while i < n
        invariant
            n == s@.len(),
            i <= n,
            r@ == s@.subrange(0, i as int),
        decreases n - i,
    {
        r.push(s.get_char(i));
        i = i + 1;
        assert(r@ =~= s@.subrange(0, i as int));
    }
    assert(s@.subrange(0, n as int) =~= s@);
    r
}

/// Reads the decimal digits `chars[first..hi]`: their value when they are
/// all digits and the value fits.
fn parse_digits(chars: &Vec<char>, first: usize, hi: usize) -> (r: Option<usize>)
    requires
        first < hi <= chars@.len(),
    ensures
        r == (if all_digits(chars@.subrange(first as int, hi as int)) && digits_value(
            chars@.subrange(first as int, hi as int),
        ) <= usize::MAX {
            Some(digits_value(chars@.subrange(first as int, hi as int)) as usize)
        } else {
            None
        }),
{
    let ghost d = chars@.subrange(first as int, hi as int);
    let mut value: usize = 0;
    let mut i: usize = first;
    assert(chars@.subrange(first as int, first as int) =~= Seq::<char>::empty());
    while i < hi
        invariant
            first <= i <= hi <= chars@.len(),
            d == chars@.subrange(first as int, hi as int),
            all_digits(chars@.subrange(first as int, i as int)),
            value == digits_value(chars@.subrange(first as int, i as int)),
        decreases hi - i,
    {
        let c = chars[i];
        if !('0' <= c && c <= '9') {
            assert(d[i - first] == c);
            return None;
        }
        let ghost prev = chars@.subrange(first as int, i as int);
        let ghost next = chars@.subrange(first as int, i + 1);
        assert(next.drop_last() =~= prev);
        assert(next.last() == c);
        let dv = (c as u32 - '0' as u32) as usize;
        assert(digits_value(next) == value * 10 + dv);
        let grown = match value.checked_mul(10) {
            Some(v) => v.checked_add(dv),
            None => None,
        };
        match grown {
            Some(v) => {
                value = v;
                i = i + 1;
                assert(all_digits(next)) by {
                    assert forall|x: int| 0 <= x < next.len() implies is_digit(#[trigger] next[x]) by {
                        if x < next.len() - 1 {
                            assert(next[x] == prev[x]);
                        }
                    }
                }
            },
            None => {
                proof {
                    if all_digits(d) {
                        lemma_digits_prefix(d, i + 1 - first);
                        assert(d.subrange(0, i + 1 - first) =~= next);
                    }
                }
                return None;
            },
        }
    }
    assert(chars@.subrange(first as int, i as int) =~= d);
    Some(value)
}

/// Reads the count written in `chars[lo..hi]`.
fn parse_count(chars: &Vec<char>, lo: usize, hi: usize) -> (r: Option<usize>)
    requires
        lo <= hi <= chars@.len(),
    ensures
        r == count_value(chars@.subrange(lo as int, hi as int)),
{
    if lo == hi {
        return None;
    }
    parse_digits(chars, lo, hi)
}

/// Reads the element written in `chars[lo..hi]`, the characters of `s`.
fn parse_element_range(s: &str, chars: &Vec<char>, lo: usize, hi: usize) -> (r: Result<
    PathElement,
    PathParseError,
>)
    requires
        chars@ == s@,
        lo <= hi <= chars@.len(),
    ensures
        match r {
            Ok(e) => parse_element(chars@.subrange(lo as int, hi as int)) == Ok::<ElementView, PathParseError>(e@),
            Err(x) => parse_element(chars@.subrange(lo as int, hi as int)) == Err::<ElementView, PathParseError>(x),
        },
{
    let ghost seg = chars@.subrange(lo as int, hi as int);
    if lo == hi {
        return Err(PathParseError::EmptyElement);
    }
    assert(seg[0] == chars@[lo as int]);
    if chars[lo] != '*' {
        let name = String::from_str(s.substring_char(lo, hi));
        return Ok(PathElement::Name(name));
    }
    if hi - lo == 1 {
        return Ok(PathElement::Wildcard((1, 0)));
    }
    assert(seg[1] == chars@[lo + 1]);
    if hi - lo == 2 && chars[lo + 1] == '*' {
        return Ok(PathElement::Wildcard((0, DOUBLE_STAR_OPTIONAL)));
    }
    let ghost rest = seg.drop_first();
    assert(rest =~= chars@.subrange(lo + 1, hi as int));
    let mut k: usize = lo + 1;
    while k < hi && chars[k] != ','
        invariant
            lo + 1 <= k <= hi <= chars@.len(),
            rest == chars@.subrange(lo + 1, hi as int),
            forall|i: int| 0 <= i < k - (lo + 1) ==> rest[i] != ',',
        decreases hi - k,
    {
        k = k + 1;
    }
    proof {
        lemma_index_of(rest, ',', k - (lo + 1));
    }
    if k == hi {
        return Err(PathParseError::MalformedWildcard);
    }
    assert(rest.subrange(0, k - (lo + 1)) =~= chars@.subrange(lo + 1, k as int));
    assert(rest.subrange(k - (lo + 1) + 1, rest.len() as int) =~= chars@.subrange(k + 1, hi as int));
    let m = parse_count(chars, lo + 1, k);
    let o = parse_count(chars, k + 1, hi);
    match (m, o) {
        (None, _) => Err(PathParseError::InvalidMandatoryCount),
        (_, None) => Err(PathParseError::InvalidOptionalCount),
        (Some(m), Some(o)) => {
            if m > MAX_WILDCARD_COUNT {
                Err(PathParseError::MandatoryCountTooLarge)
            } else if o > MAX_WILDCARD_COUNT {
                Err(PathParseError::OptionalCountTooLarge)
            } else {
                Ok(PathElement::Wildcard((m, o)))
            }
        },
    }
}

impl PathElement {
    /// Reads one segment of a path: `*` is `Wildcard((1, 0))`, `**` is
    /// `Wildcard((0, 9))`, `*M,O` is `Wildcard((M, O))` with both counts at
    /// most 10, and any other non-empty text is a name, taken verbatim.
    pub fn parse(s: &str) -> (r: Result<PathElement, PathParseError>)
        ensures
            match r {
                Ok(e) => parse_element(s@) == Ok::<ElementView, PathParseError>(e@),
                Err(x) => parse_element(s@) == Err::<ElementView, PathParseError>(x),
            },
    {
        let chars = chars_of(s);
        assert(chars@.subrange(0, chars@.len() as int) =~= chars@);
        parse_element_range(s, &chars, 0, chars.len())
    }
}

impl Path {
    /// Reads a path such as `/floor1/*/lamp`: it must start with `/` and may
    /// not end with `/` unless it is `/` itself, the root path.
    pub fn parse(s: &str) -> (r: Result<Path, PathParseError>)
        ensures
            match r {
                Ok(p) => parse_path(s@) == Ok::<Seq<ElementView>, PathParseError>(p@),
                Err(x) => parse_path(s@) == Err::<Seq<ElementView>, PathParseError>(x),
            },
    {
        let chars = chars_of(s);
        let n = chars.len();
        if n == 0 || chars[0] != '/' {
            return Err(PathParseError::MissingLeadingSlash);
        }
        if n > 1 && chars[n - 1] == '/' {
            return Err(PathParseError::TrailingSlash);
        }
        let mut start: usize = 0;
        assert(chars@.subrange(0, n as int) =~= chars@);
        while start < n && chars[start] == '/'
            invariant
                start <= n == chars@.len(),
                strip_slashes(chars@) == strip_slashes(chars@.subrange(start as int, n as int)),
            decreases n - start,
        {
            assert(chars@.subrange(start as int, n as int).drop_first() =~= chars@.subrange(start + 1, n as int));
            start = start + 1;
        }
        let ghost t = chars@.subrange(start as int, n as int);
        assert(strip_slashes(chars@) == t);
        let mut elements: Vec<PathElement> = Vec::new();
        elements.push(PathElement::Root);
        if start == n {
            let p = Path { elements };
            assert(p@ =~= seq![ElementView::Root]);
            return Ok(p);
        }
        let mut bounds: Vec<(usize, usize)> = Vec::new();
        let mut seg_start: usize = start;
        let mut i: usize = start;
        assert(chars@.subrange(start as int, start as int) =~= Seq::<char>::empty());
        while i < n
            invariant
                start <= seg_start <= i <= n == chars@.len(),
                forall|k: int| 0 <= k < bounds@.len() ==> #[trigger] bounds@[k].0 <= bounds@[k].1 <= n,
                split_on(chars@.subrange(start as int, i as int), '/') == bounds@.map_values(
                    |b: (usize, usize)| chars@.subrange(b.0 as int, b.1 as int),
                ).push(chars@.subrange(seg_start as int, i as int)),
            decreases n - i,
        {
            let ghost prefix = chars@.subrange(start as int, i + 1);
            assert(prefix.drop_last() =~= chars@.subrange(start as int, i as int));
            if chars[i] == '/' {
                let ghost old_bounds = bounds@;
                bounds.push((seg_start, i));
                assert forall|k: int| 0 <= k < bounds@.len() implies #[trigger] bounds@[k].0 <= bounds@[k].1 <= n by {
                    if k < old_bounds.len() {
                        assert(bounds@[k] == old_bounds[k]);
                    }
                }
                seg_start = i + 1;
                assert(chars@.subrange(seg_start as int, seg_start as int) =~= Seq::<char>::empty());
            } else {
                assert(chars@.subrange(seg_start as int, i as int).push(chars@[i as int]) =~= chars@.subrange(seg_start as int, i + 1));
            }
            i = i + 1;
            assert(split_on(chars@.subrange(start as int, i as int), '/') =~= bounds@.map_values(
                |b: (usize, usize)| chars@.subrange(b.0 as int, b.1 as int),
            ).push(chars@.subrange(seg_start as int, i as int)));
        }
        let ghost old_bounds = bounds@;
        bounds.push((seg_start, n));
        assert forall|k: int| 0 <= k < bounds@.len() implies #[trigger] bounds@[k].0 <= bounds@[k].1 <= n by {
            if k < old_bounds.len() {
                assert(bounds@[k] == old_bounds[k]);
            }
        }
        let ghost segs = bounds@.map_values(|b: (usize, usize)| chars@.subrange(b.0 as int, b.1 as int));
        assert(segs =~= split_on(t, '/'));
        let mut k: usize = 0;
        assert(segs.subrange(0, 0) =~= Seq::<Seq<char>>::empty());
        assert(elements@.map_values(|e: PathElement| e@) =~= seq![ElementView::Root]);
        assert(seq![ElementView::Root].drop_first() =~= Seq::<ElementView>::empty());
        while k < bounds.len()
            invariant
                s@.len() > 0 && s@[0] == '/',
                !(s@.len() > 1 && s@.last() == '/'),
                t == strip_slashes(s@),
                t.len() > 0,
                segs == split_on(t, '/'),
                k <= bounds@.len(),
                segs == bounds@.map_values(|b: (usize, usize)| chars@.subrange(b.0 as int, b.1 as int)),
                chars@ == s@,
                forall|x: int| 0 <= x < bounds@.len() ==> #[trigger] bounds@[x].0 <= bounds@[x].1 <= chars@.len(),
                elements@.len() >= 1,
                parse_segments(segs.subrange(0, k as int)) == Ok::<Seq<ElementView>, PathParseError>(
                    elements@.map_values(|e: PathElement| e@).drop_first(),
                ),
                elements@.map_values(|e: PathElement| e@)[0] == ElementView::Root,
            decreases bounds@.len() - k,
        {
            let (lo, hi) = bounds[k];
            let ghost before = elements@.map_values(|e: PathElement| e@);
            assert(segs.subrange(0, k + 1).drop_last() =~= segs.subrange(0, k as int));
            assert(segs[k as int] == chars@.subrange(lo as int, hi as int));
            match parse_element_range(s, &chars, lo, hi) {
                Ok(e) => {
                    elements.push(e);
                    assert(elements@.map_values(|e: PathElement| e@).drop_first() =~= before.drop_first().push(e@));
                },
                Err(x) => {
                    proof {
                        assert(segs.subrange(0, k + 1).last() == segs[k as int]);
                        lemma_parse_segments_error(segs, k + 1, x);
                    }
                    return Err(x);
                },
            }
            k = k + 1;
        }
        assert(segs.subrange(0, k as int) =~= segs);
        let p = Path { elements };
        assert(p@ =~= seq![ElementView::Root] + p@.drop_first());
        Ok(p)
    }
}

impl std::str::FromStr for PathElement {
    type Err = PathParseError;

    fn from_str(s: &str) -> Result<PathElement, PathParseError> {
        PathElement::parse(s)
    }
}

impl std::str::FromStr for Path {
    type Err = PathParseError;

    fn from_str(s: &str) -> Result<Path, PathParseError> {
        Path::parse(s)
    }
}

/// The text of the decimal digit `d`.
fn digit_str(d: usize) -> (r: &'static str)
    requires
        d < 10,
    ensures
        r@ == seq![digit_char(d as nat)],
{
    proof {
        reveal_strlit("0");
        reveal_strlit("1");
        reveal_strlit("2");
        reveal_strlit("3");
        reveal_strlit("4");
        reveal_strlit("5");
        reveal_strlit("6");
        reveal_strlit("7");
        reveal_strlit("8");
        reveal_strlit("9");
    }
    let r = if d == 0 {
        "0"
    } else if d == 1 {
        "1"
    } else if d == 2 {
        "2"
    } else if d == 3 {
        "3"
    } else if d == 4 {
        "4"
    } else if d == 5 {
        "5"
    } else if d == 6 {
        "6"
    } else if d == 7 {
        "7"
    } else if d == 8 {
        "8"
    } else {
        "9"
    };
    assert(r@ =~= seq![digit_char(d as nat)]);
    r
}

/// Appends `n` in decimal to `out`.
pub fn push_decimal(out: &mut String, n: usize)
    ensures
        final(out)@ == old(out)@ + decimal(n as nat),
    decreases n,
{
    if n >= 10 {
        push_decimal(out, n / 10);
    }
    out.append(digit_str(n % 10));
    proof {
        if n >= 10 {
            assert(old(out)@ + decimal(n as nat) =~= old(out)@ + decimal((n / 10) as nat) + seq![digit_char((n % 10) as nat)]);
        } else {
            assert(old(out)@ + decimal(n as nat) =~= old(out)@ + seq![digit_char((n % 10) as nat)]);
        }
    }
}

impl PathElement {
    /// Appends the text of this element to `out`.
    pub(crate) fn write_to(&self, out: &mut String)
        ensures
            final(out)@ == old(out)@ + element_text(self@),
    {
        proof {
            reveal_strlit("*");
            reveal_strlit("**");
            reveal_strlit(",");
        }
        match self {
            PathElement::Root => {
                assert(out@ =~= old(out)@ + element_text(self@));
            },
            PathElement::Name(n) => {
                out.append(n.as_str());
            },
            PathElement::Wildcard(w) => {
                if w.0 == 1 && w.1 == 0 {
                    out.append("*");
                } else if w.0 == 0 && w.1 == DOUBLE_STAR_OPTIONAL {
                    out.append("**");
                } else {
                    out.append("*");
                    push_decimal(out, w.0);
                    out.append(",");
                    push_decimal(out, w.1);
                    assert(out@ =~= old(out)@ + element_text(self@));
                }
            },
        }
    }

    /// The text of this element: `*`, `**`, `*M,O`, the name itself, or
    /// nothing for the root.
    pub fn to_string(&self) -> (r: String)
        ensures
            r@ == element_text(self@),
    {
        let mut out = String::new();
        self.write_to(&mut out);
        assert(out@ =~= element_text(self@));
        out
    }
}

impl Path {
    /// The text of this path, such as `/floor1/*/lamp`; `/` for the root.
    pub fn to_string(&self) -> (r: String)
        ensures
            r@ == path_text(self@),
    {
        let ghost p = self@;
        let n = self.elements.len();
        let mut i: usize = 0;
        assert(p.subrange(0, n as int) =~= p);
        while i < n && self.elements[i].is_root()
            invariant
                p == self@,
                n == p.len(),
                i <= n,
                drop_roots(p) == drop_roots(p.subrange(i as int, n as int)),
            decreases n - i,
        {
            assert(p.subrange(i as int, n as int).drop_first() =~= p.subrange(i + 1, n as int));
            i = i + 1;
        }
        let ghost r = p.subrange(i as int, n as int);
        assert(drop_roots(p) == r);
        let mut out = String::new();
        proof {
            reveal_strlit("/");
        }
        if i == n {
            if n > 0 {
                out.append("/");
            }
            assert(out@ =~= path_text(p));
            return out;
        }
        out.append("/");
        self.elements[i].write_to(&mut out);
        let first = i;
        i = i + 1;
        assert(r.subrange(0, 1) =~= seq![r[0]]);
        assert(out@ =~= seq!['/'] + joined(r.subrange(0, (i - first) as int)));
        while i < n
            invariant
                p == self@,
                n == p.len(),
                first < i <= n,
                r == p.subrange(first as int, n as int),
                out@ == seq!['/'] + joined(r.subrange(0, (i - first) as int)),
            decreases n - i,
        {
            let ghost before = out@;
            proof {
                reveal_strlit("/");
            }
            out.append("/");
            assert(self.elements@[i as int]@ == p[i as int]);
            self.elements[i].write_to(&mut out);
            let ghost m = (i - first) as int;
            assert(r.subrange(0, m + 1).drop_last() =~= r.subrange(0, m));
            assert(r.subrange(0, m + 1).last() == p[i as int]);
            i = i + 1;
            assert(out@ =~= seq!['/'] + joined(r.subrange(0, (i - first) as int)));
        }
        assert(r.subrange(0, (i - first) as int) =~= r);
        out
    }
}

} // verus!
