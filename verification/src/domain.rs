use vstd::prelude::*;
use vstd::string::StrSliceExecFns;
use vstd::string::StringSliceAdditionalSpecFns;
use vstd::multiset::Multiset;

verus! {

/// ASCII code of '.'
pub const DOT: u8 = 46;

/// ASCII whitespace accepted around a domain name.
pub open spec fn is_ws(b: u8) -> bool {
    b == 9 || b == 10 || b == 11 || b == 12 || b == 13 || b == 32
}

/// Lowercase a single ASCII byte.
pub open spec fn lower_byte(b: u8) -> u8 {
    if 65 <= b <= 90 {
        (b + 32) as u8
    } else {
        b
    }
}

pub open spec fn lower_seq(s: Seq<u8>) -> Seq<u8> {
    s.map_values(|b: u8| lower_byte(b))
}

pub open spec fn is_digit(b: u8) -> bool {
    48 <= b <= 57
}

/// Bytes accepted inside a (lowercased) label: letters, digits, '-' and '_'.
pub open spec fn label_byte_ok(b: u8) -> bool {
    is_digit(b) || 97 <= b <= 122 || b == 45 || b == 95
}

pub open spec fn label_ok(l: Seq<u8>) -> bool {
    1 <= l.len() <= 63 && forall|i: int| 0 <= i < l.len() ==> label_byte_ok(#[trigger] l[i])
}

/// Numeric value of a digit string.
pub open spec fn digits_val(l: Seq<u8>) -> int
    decreases l.len(),
{
    if l.len() == 0 {
        0
    } else {
        digits_val(l.drop_last()) * 10 + (l.last() - 48)
    }
}

/// The digits of a candidate numeric label: an optional leading '+'
/// is not part of them.
pub open spec fn numeric_body(l: Seq<u8>) -> Seq<u8> {
    if l.len() > 0 && l[0] == 43 {
        l.skip(1)
    } else {
        l
    }
}

pub open spec fn all_digits(d: Seq<u8>) -> bool {
    forall|i: int| 0 <= i < d.len() ==> is_digit(#[trigger] d[i])
}

/// A label that reads as a decimal `u32`, optionally signed with '+',
/// the way an address octet does.
pub open spec fn numeric_label(l: Seq<u8>) -> bool {
    &&& numeric_body(l).len() > 0
    &&& all_digits(numeric_body(l))
    &&& digits_val(numeric_body(l)) <= u32::MAX
}

pub open spec fn trim_front(s: Seq<u8>) -> Seq<u8>
    decreases s.len(),
{
    if s.len() > 0 && is_ws(s[0]) {
        trim_front(s.skip(1))
    } else {
        s
    }
}

pub open spec fn trim_back(s: Seq<u8>) -> Seq<u8>
    decreases s.len(),
{
    if s.len() > 0 && is_ws(s.last()) {
        trim_back(s.drop_last())
    } else {
        s
    }
}

pub open spec fn trim_spec(s: Seq<u8>) -> Seq<u8> {
    trim_back(trim_front(s))
}

pub open spec fn strip_trailing_dot(s: Seq<u8>) -> Seq<u8> {
    if s.len() > 0 && s.last() == DOT {
        s.drop_last()
    } else {
        s
    }
}

/// Split on '.', keeping empty parts; splitting the empty string
/// gives one empty part.
pub open spec fn split_dots(s: Seq<u8>) -> Seq<Seq<u8>>
    decreases s.len(),
{
    if s.len() == 0 {
        seq![Seq::<u8>::empty()]
    } else {
        let r = split_dots(s.drop_last());
        if s.last() == DOT {
            r.push(Seq::<u8>::empty())
        } else {
            r.update(r.len() - 1, r.last().push(s.last()))
        }
    }
}

pub proof fn lemma_split_dots_len(s: Seq<u8>)
    ensures
        split_dots(s).len() >= 1,
    decreases s.len(),
{
    if s.len() > 0 {
        lemma_split_dots_len(s.drop_last());
    }
}

/// The canonical labels of a name, in display order: trimmed,
/// lowercased, trailing dot elided, split on '.'.
pub open spec fn domain_labels_of(s: Seq<u8>) -> Seq<Seq<u8>> {
    split_dots(strip_trailing_dot(lower_seq(trim_spec(s))))
}

/// What `Domain::parse` accepts: at least one label, every label of
/// valid syntax, no label purely numeric, and the whole name within
/// the wire-format length limit.
pub open spec fn valid_domain_bytes(s: Seq<u8>) -> bool {
    let ls = domain_labels_of(s);
    &&& strip_trailing_dot(lower_seq(trim_spec(s))).len() <= 253
    &&& ls.len() >= 1
    &&& forall|i: int| 0 <= i < ls.len() ==> label_ok(#[trigger] ls[i])
    &&& forall|i: int| 0 <= i < ls.len() ==> !numeric_label(#[trigger] ls[i])
}

pub proof fn lemma_digits_val_nonneg(l: Seq<u8>)
    requires
        forall|i: int| 0 <= i < l.len() ==> is_digit(#[trigger] l[i]),
    ensures
        digits_val(l) >= 0,
    decreases l.len(),
{
    if l.len() > 0 {
        lemma_digits_val_nonneg(l.drop_last());
    }
}

pub(crate) fn trim_bytes(v: &Vec<u8>) -> (r: Vec<u8>)
    ensures
        r@ == trim_spec(v@),
{
    let mut start: usize = 0;
    proof {
        assert(v@.skip(0) =~= v@);
    }
    while start < v.len() && is_ws_exec(v[start])
        invariant
            start <= v@.len(),
            trim_front(v@) == trim_front(v@.skip(start as int)),
        decreases v@.len() - start,
    {
        proof {
            assert(v@.skip(start as int).skip(1) =~= v@.skip(start as int + 1));
        }
        start += 1;
    }
    proof {
        assert(trim_front(v@) == v@.skip(start as int));
    }
    let mut end: usize = v.len();
    while end > start && is_ws_exec(v[end - 1])
        invariant
            start <= end <= v@.len(),
            trim_front(v@) == v@.skip(start as int),
            trim_back(v@.skip(start as int)) == trim_back(v@.subrange(start as int, end as int)),
        decreases end,
    {
        proof {
            assert(v@.subrange(start as int, end as int).drop_last() =~= v@.subrange(
                start as int,
                end as int - 1,
            ));
        }
        end -= 1;
    }
    proof {
        assert(trim_back(v@.subrange(start as int, end as int)) == v@.subrange(
            start as int,
            end as int,
        ));
    }
    copy_range(v, start, end)
}

fn is_ws_exec(b: u8) -> (r: bool)
    ensures
        r == is_ws(b),
{
    b == 9 || b == 10 || b == 11 || b == 12 || b == 13 || b == 32
}

pub fn copy_range(v: &Vec<u8>, from: usize, to: usize) -> (r: Vec<u8>)
    requires
        from <= to <= v@.len(),
    ensures
        r@ == v@.subrange(from as int, to as int),
{
    let mut r: Vec<u8> = Vec::new();
    let mut i: usize = from;
    while i < to
        invariant
            from <= i <= to <= v@.len(),
            r@ =~= v@.subrange(from as int, i as int),
        decreases to - i,
    {
        r.push(v[i]);
        proof {
            assert(r@ =~= v@.subrange(from as int, i as int + 1));
        }
        i += 1;
    }
    r
}

pub(crate) fn lower_bytes(v: &Vec<u8>) -> (r: Vec<u8>)
    ensures
        r@ == lower_seq(v@),
{
    let mut r: Vec<u8> = Vec::new();
    let mut i: usize = 0;
    while i < v.len()
        invariant
            i <= v@.len(),
            r@ =~= lower_seq(v@).take(i as int),
        decreases v@.len() - i,
    {
        let b = v[i];
        if 65 <= b && b <= 90 {
            r.push(b + 32);
        } else {
            r.push(b);
        }
        proof {
            assert(r@ =~= lower_seq(v@).take(i as int + 1));
        }
        i += 1;
    }
    proof {
        assert(lower_seq(v@).take(v@.len() as int) =~= lower_seq(v@));
    }
    r
}

fn split_bytes(v: &Vec<u8>) -> (r: Vec<Vec<u8>>)
    ensures
        r@.map_values(|l: Vec<u8>| l@) == split_dots(v@),
{
    let mut out: Vec<Vec<u8>> = Vec::new();
    let mut cur: Vec<u8> = Vec::new();
    let mut i: usize = 0;
    while i < v.len()
        invariant
            i <= v@.len(),
            split_dots(v@.take(i as int)) =~= out@.map_values(|l: Vec<u8>| l@).push(cur@),
        decreases v@.len() - i,
    {
        proof {
            assert(v@.take(i as int + 1).drop_last() =~= v@.take(i as int));
            assert(v@.take(i as int + 1).last() == v@[i as int]);
        }
        if v[i] == DOT {
            out.push(cur);
            cur = Vec::new();
            proof {
                assert(out@.map_values(|l: Vec<u8>| l@).push(cur@) =~= split_dots(
                    v@.take(i as int + 1),
                ));
            }
        } else {
            let b = v[i];
            cur.push(b);
            proof {
                let m = out@.map_values(|l: Vec<u8>| l@);
                assert(m.push(cur@) =~= split_dots(v@.take(i as int)).update(
                    split_dots(v@.take(i as int)).len() - 1,
                    split_dots(v@.take(i as int)).last().push(b),
                ));
                assert(m.push(cur@) =~= split_dots(v@.take(i as int + 1)));
            }
        }
        i += 1;
    }
    proof {
        assert(v@.take(v@.len() as int) =~= v@);
    }
    out.push(cur);
    out
}

fn label_ok_exec(l: &Vec<u8>) -> (r: bool)
    ensures
        r == label_ok(l@),
{
    if l.len() < 1 || l.len() > 63 {
        return false;
    }
    let mut i: usize = 0;
    while i < l.len()
        invariant
            i <= l@.len(),
            forall|k: int| 0 <= k < i ==> label_byte_ok(#[trigger] l@[k]),
        decreases l@.len() - i,
    {
        let b = l[i];
        if !(48 <= b && b <= 57 || 97 <= b && b <= 122 || b == 45 || b == 95) {
            return false;
        }
        i += 1;
    }
    true
}

fn numeric_label_exec(l: &Vec<u8>) -> (r: bool)
    ensures
        r == numeric_label(l@),
{
    let ghost d: Seq<u8> = numeric_body(l@);
    let start: usize = if l.len() > 0 && l[0] == 43 {
        1
    } else {
        0
    };
    proof {
        assert(d =~= l@.subrange(start as int, l@.len() as int));
    }
    if l.len() == start {
        return false;
    }
    let mut i: usize = start;
    let mut val: u64 = 0;
    while i < l.len()
        invariant
            start <= i <= l@.len(),
            d == l@.subrange(start as int, l@.len() as int),
            d == numeric_body(l@),
            l@.len() > start,
            forall|k: int| 0 <= k < i - start ==> is_digit(#[trigger] d[k]),
            val <= 0x1_0000_0000,
            digits_val(d.take(i - start)) <= u32::MAX ==> val == digits_val(d.take(i - start)),
            digits_val(d.take(i - start)) > u32::MAX ==> val == 0x1_0000_0000,
        decreases l@.len() - i,
    {
        let b = l[i];
        if !(48 <= b && b <= 57) {
            proof {
                assert(d[i - start] == l@[i as int]);
                assert(!is_digit(d[i - start]));
                assert(!all_digits(d)) by {
                    assert(0 <= i - start < d.len() && !is_digit(d[i - start]));
                }
                assert(!numeric_label(l@));
            }
            return false;
        }
        proof {
            assert(d[i - start] == b);
            assert(d.take(i - start + 1).drop_last() =~= d.take(i - start));
            assert(d.take(i - start + 1).last() == b);
            lemma_digits_val_nonneg(d.take(i - start));
        }
        let tmp: u64 = val * 10 + ((b - 48) as u64);
        val = if tmp > 0x1_0000_0000 {
            0x1_0000_0000
        } else {
            tmp
        };
        i += 1;
    }
    proof {
        assert(d.take(l@.len() - start) =~= d);
    }
    val <= 0xffff_ffff
}

/// A DNS name in canonical form: lowercased labels, stored in
/// reverse order (most significant label first), trailing dot elided.
#[derive(Clone, Debug, PartialEq, Eq, PartialOrd, Ord, Hash)]
pub struct Domain {
    labels: Vec<Vec<u8>>,
}

impl View for Domain {
    type V = Seq<Seq<u8>>;

    /// The labels, most significant (top-level) first.
    closed spec fn view(&self) -> Seq<Seq<u8>> {
        self.labels@.map_values(|l: Vec<u8>| l@)
    }
}

/// The display form of labels given in display order, joined with '.'.
pub open spec fn join_dots(ls: Seq<Seq<u8>>) -> Seq<u8>
    decreases ls.len(),
{
    if ls.len() == 0 {
        Seq::<u8>::empty()
    } else {
        join_dots(ls.drop_last()) + (if ls.len() > 1 {
            seq![DOT]
        } else {
            Seq::<u8>::empty()
        }) + ls.last()
    }
}

pub open spec fn ascii_chars(s: Seq<u8>) -> Seq<char> {
    s.map_values(|b: u8| b as char)
}

proof fn lemma_join_dots_ascii(ls: Seq<Seq<u8>>)
    requires
        forall|i: int| 0 <= i < ls.len() ==> label_ok(#[trigger] ls[i]),
    ensures
        forall|k: int| 0 <= k < join_dots(ls).len() ==> #[trigger] join_dots(ls)[k] < 128,
    decreases ls.len(),
{
    if ls.len() > 0 {
        lemma_join_dots_ascii(ls.drop_last());
        assert(label_ok(ls.last()));
        assert forall|k: int| 0 <= k < join_dots(ls).len() implies #[trigger] join_dots(ls)[k]
            < 128 by {
            let pre = join_dots(ls.drop_last());
            if k >= join_dots(ls).len() - ls.last().len() {
                assert(join_dots(ls)[k] == ls.last()[k - (join_dots(ls).len()
                    - ls.last().len())]);
            } else if k < pre.len() {
                assert(join_dots(ls)[k] == pre[k]);
            }
        }
    }
}

/// Relies on String::from_utf8: bytes below 128 decode to exactly the
/// characters with those code points.
#[verifier::external_body]
pub fn ascii_string(bytes: &Vec<u8>) -> (r: String)
    requires
        forall|i: int| 0 <= i < bytes@.len() ==> #[trigger] bytes@[i] < 128,
    ensures
        r@ == ascii_chars(bytes@),
{
    match String::from_utf8(bytes.clone()) {
        Ok(s) => s,
        Err(_) => String::new(),
    }
}

impl Domain {
    /// Every label nonempty, within limits, and made of valid
    /// lowercase bytes; no label purely numeric.
    pub open spec fn wf(self) -> bool {
        &&& self@.len() >= 1
        &&& forall|i: int| 0 <= i < self@.len() ==> label_ok(#[trigger] self@[i])
        &&& forall|i: int| 0 <= i < self@.len() ==> !numeric_label(#[trigger] self@[i])
    }

    /// Number of labels.
    pub fn len(&self) -> (n: usize)
        ensures
            n == self@.len(),
    {
        self.labels.len()
    }

    pub fn is_empty(&self) -> (r: bool)
        ensures
            r == (self@.len() == 0),
    {
        self.labels.len() == 0
    }

    /// A fresh domain with the same labels.
    pub fn duplicate(&self) -> (d: Domain)
        ensures
            d@ == self@,
    {
        let mut labels: Vec<Vec<u8>> = Vec::new();
        let mut i: usize = 0;
        while i < self.labels.len()
            invariant
                i <= self@.len(),
                labels@.map_values(|l: Vec<u8>| l@) =~= self@.take(i as int),
            decreases self@.len() - i,
        {
            let piece = copy_label(&self.labels[i]);
            proof {
                assert(piece@ == self@[i as int]);
            }
            let ghost m0 = labels@.map_values(|l: Vec<u8>| l@);
            labels.push(piece);
            proof {
                assert(labels@.map_values(|l: Vec<u8>| l@) =~= m0.push(piece@));
                assert(m0.push(piece@) =~= self@.take(i as int + 1));
            }
            i += 1;
        }
        let d = Domain { labels };
        proof {
            assert(d@ =~= self@);
        }
        d
    }

    /// The label at position `i`, most significant first, as bytes.
    pub fn label_at(&self, i: usize) -> (l: &Vec<u8>)
        requires
            i < self@.len(),
        ensures
            l@ == self@[i as int],
    {
        &self.labels[i]
    }

    /// Parse a name into canonical form: trimmed, lowercased, trailing
    /// dot elided, labels reversed. Rejects empty names, bad label
    /// syntax, purely numeric labels and over-long names.
    pub fn parse(s: &str) -> (r: Option<Domain>)
        ensures
            match r {
                Some(d) => {
                    &&& valid_domain_bytes(s.spec_bytes())
                    &&& d.wf()
                    &&& d@ == domain_labels_of(s.spec_bytes()).reverse()
                },
                None => !valid_domain_bytes(s.spec_bytes()),
            },
    {
        let raw = s.as_bytes_vec();
        Domain::parse_bytes(&raw)
    }

    /// `parse`, starting from the raw bytes of the name.
    pub fn parse_bytes(raw: &Vec<u8>) -> (r: Option<Domain>)
        ensures
            match r {
                Some(d) => {
                    &&& valid_domain_bytes(raw@)
                    &&& d.wf()
                    &&& d@ == domain_labels_of(raw@).reverse()
                },
                None => !valid_domain_bytes(raw@),
            },
    {
        let trimmed = trim_bytes(raw);
        let mut low = lower_bytes(&trimmed);
        if low.len() > 0 && low[low.len() - 1] == DOT {
            low.pop();
        }
        proof {
            assert(low@ == strip_trailing_dot(lower_seq(trim_spec(raw@))));
        }
        if low.len() > 253 {
            return None;
        }
        let parts = split_bytes(&low);
        let ghost ls = domain_labels_of(raw@);
        proof {
            assert(ls == parts@.map_values(|l: Vec<u8>| l@));
        }
        let mut i: usize = 0;
        while i < parts.len()
            invariant
                i <= parts@.len(),
                ls == parts@.map_values(|l: Vec<u8>| l@),
                ls == domain_labels_of(raw@),
                forall|k: int| 0 <= k < i ==> label_ok(#[trigger] ls[k]),
                forall|k: int| 0 <= k < i ==> !numeric_label(#[trigger] ls[k]),
            decreases parts@.len() - i,
        {
            if !label_ok_exec(&parts[i]) {
                proof {
                    assert(!label_ok(ls[i as int]));
                    assert(!(forall|k: int| 0 <= k < ls.len() ==> label_ok(#[trigger] ls[k])))
                        by {
                        assert(0 <= i < ls.len() && !label_ok(ls[i as int]));
                    }
                }
                return None;
            }
            if numeric_label_exec(&parts[i]) {
                proof {
                    assert(numeric_label(ls[i as int]));
                    assert(!(forall|k: int| 0 <= k < ls.len() ==> !numeric_label(
                        #[trigger] ls[k],
                    ))) by {
                        assert(0 <= i < ls.len() && numeric_label(ls[i as int]));
                    }
                }
                return None;
            }
            i += 1;
        }
        proof {
            lemma_split_dots_len(low@);
        }
        let labels = reverse_parts(parts);
        let d = Domain { labels };
        proof {
            assert(d@ == ls.reverse());
            assert forall|k: int| 0 <= k < d@.len() implies label_ok(#[trigger] d@[k])
                && !numeric_label(d@[k]) by {
                assert(d@[k] == ls[ls.len() - 1 - k]);
            }
        }
        Some(d)
    }

    /// The name in display order, labels joined with dots.
    pub fn name(&self) -> (r: String)
        requires
            self.wf(),
        ensures
            r@ == ascii_chars(join_dots(self@.reverse())),
    {
        let r = self.display_upto(self.labels.len());
        proof {
            assert(self@.take(self@.len() as int) =~= self@);
        }
        r
    }

    /// The display form of the name made of the first `n` labels
    /// (most significant first): those labels reversed and joined.
    pub fn display_upto(&self, n: usize) -> (r: String)
        requires
            self.wf(),
            n <= self@.len(),
        ensures
            r@ == ascii_chars(join_dots(self@.take(n as int).reverse())),
    {
        let ghost disp = self@.take(n as int).reverse();
        proof {
            assert forall|i: int| 0 <= i < disp.len() implies label_ok(#[trigger] disp[i]) by {
                assert(disp[i] == self@.take(n as int)[n - 1 - i]);
                assert(self@.take(n as int)[n - 1 - i] == self@[n - 1 - i]);
            }
            lemma_join_dots_ascii(disp);
        }
        let mut out: Vec<u8> = Vec::new();
        let mut i: usize = n;
        while i > 0
            invariant
                i <= n <= self@.len(),
                disp == self@.take(n as int).reverse(),
                forall|k: int| 0 <= k < self@.len() ==> label_ok(#[trigger] self@[k]),
                out@ =~= join_dots(disp.take(n - i)),
            decreases i,
        {
            let ghost k = n - i;
            if i < n {
                out.push(DOT);
            }
            let label = &self.labels[i - 1];
            proof {
                assert(disp[k as int] == self@.take(n as int)[i - 1]);
                assert(self@.take(n as int)[i - 1] == self@[i - 1]);
                assert(disp.take(k + 1).drop_last() =~= disp.take(k as int));
                assert(disp.take(k + 1).last() == disp[k as int]);
            }
            let mut j: usize = 0;
            while j < label.len()
                invariant
                    j <= label@.len(),
                    1 <= i <= n <= self@.len(),
                    disp == self@.take(n as int).reverse(),
                    label@ == self@[i - 1],
                    k == n - i,
                    disp[k as int] == self@[i - 1],
                    out@ =~= join_dots(disp.take(k as int)) + (if k + 1 > 1 {
                        seq![DOT]
                    } else {
                        Seq::<u8>::empty()
                    }) + label@.take(j as int),
                decreases label@.len() - j,
            {
                out.push(label[j]);
                j += 1;
            }
            proof {
                assert(label@.take(label@.len() as int) =~= label@);
                assert(out@ =~= join_dots(disp.take(k + 1)));
            }
            i -= 1;
        }
        proof {
            assert(disp.take(disp.len() as int) =~= disp);
            assert forall|b: int| 0 <= b < out@.len() implies #[trigger] out@[b] < 128 by {
                assert(out@[b] == join_dots(disp)[b]);
            }
        }
        ascii_string(&out)
    }

    /// The labels, most significant first, as strings.
    pub fn labels(&self) -> (r: Vec<String>)
        requires
            self.wf(),
        ensures
            r@.len() == self@.len(),
            forall|i: int| 0 <= i < r@.len() ==> #[trigger] r@[i]@ == ascii_chars(self@[i]),
    {
        let mut r: Vec<String> = Vec::new();
        let mut i: usize = 0;
        while i < self.labels.len()
            invariant
                i <= self@.len(),
                forall|k: int| 0 <= k < self@.len() ==> label_ok(#[trigger] self@[k]),
                r@.len() == i,
                forall|k: int| 0 <= k < i ==> #[trigger] r@[k]@ == ascii_chars(self@[k]),
            decreases self@.len() - i,
        {
            proof {
                assert(label_ok(self@[i as int]));
            }
            r.push(ascii_string(&self.labels[i]));
            i += 1;
        }
        r
    }

    /// The domain with its most specific label removed; `None` when
    /// only one label is left.
    pub fn parent(&self) -> (r: Option<Domain>)
        requires
            self.wf(),
        ensures
            match r {
                Some(p) => self@.len() > 1 && p@ == self@.drop_last() && p.wf(),
                None => self@.len() <= 1,
            },
    {
        if self.labels.len() <= 1 {
            return None;
        }
        let mut labels: Vec<Vec<u8>> = Vec::new();
        let mut i: usize = 0;
        while i < self.labels.len() - 1
            invariant
                i <= self@.len() - 1,
                self@.len() > 1,
                labels@.map_values(|l: Vec<u8>| l@) =~= self@.take(i as int),
            decreases self@.len() - 1 - i,
        {
            let piece = copy_range(&self.labels[i], 0, self.labels[i].len());
            proof {
                assert(self.labels@[i as int]@ == self@[i as int]);
                assert(piece@ =~= self@[i as int]);
            }
            let ghost m0 = labels@.map_values(|l: Vec<u8>| l@);
            labels.push(piece);
            proof {
                assert(labels@.map_values(|l: Vec<u8>| l@) =~= m0.push(piece@));
                assert(m0.push(piece@) =~= self@.take(i as int + 1));
            }
            i += 1;
        }
        let p = Domain { labels };
        proof {
            assert(p@ =~= self@.drop_last());
            assert forall|k: int| 0 <= k < p@.len() implies label_ok(#[trigger] p@[k])
                && !numeric_label(p@[k]) by {
                assert(p@[k] == self@[k]);
            }
        }
        Some(p)
    }

    /// True iff every label of `other` is a prefix of this domain's
    /// reverse-label sequence.
    pub open spec fn subdomain_spec(self, other: Domain) -> bool {
        other@.len() <= self@.len() && other@ == self@.take(other@.len() as int)
    }

    pub fn subdomain_of(&self, other: &Domain) -> (r: bool)
        ensures
            r == self.subdomain_spec(*other),
    {
        if self.labels.len() < other.labels.len() {
            return false;
        }
        let mut i: usize = 0;
        while i < other.labels.len()
            invariant
                i <= other@.len() <= self@.len(),
                forall|k: int| 0 <= k < i ==> other@[k] == self@.take(other@.len() as int)[k],
            decreases other@.len() - i,
        {
            if !bytes_eq(&self.labels[i], &other.labels[i]) {
                proof {
                    assert(other@[i as int] != self@.take(other@.len() as int)[i as int]);
                }
                return false;
            }
            i += 1;
        }
        proof {
            assert(other@ =~= self@.take(other@.len() as int));
        }
        true
    }
}

fn reverse_parts(parts: Vec<Vec<u8>>) -> (r: Vec<Vec<u8>>)
    ensures
        r@.map_values(|l: Vec<u8>| l@) == parts@.map_values(|l: Vec<u8>| l@).reverse(),
{
    let ghost full = parts@.map_values(|l: Vec<u8>| l@);
    let mut parts = parts;
    let mut r: Vec<Vec<u8>> = Vec::new();
    while parts.len() > 0
        invariant
            parts@.map_values(|l: Vec<u8>| l@) =~= full.take(parts@.len() as int),
            r@.map_values(|l: Vec<u8>| l@) =~= full.reverse().take(r@.len() as int),
            r@.len() + parts@.len() == full.len(),
        decreases parts@.len(),
    {
        let ghost n = parts@.len();
        let ghost m0 = r@.map_values(|x: Vec<u8>| x@);
        let l = parts.pop().unwrap();
        proof {
            assert(full.take(n as int)[n - 1] == full[n - 1]);
            assert(l@ == full[n - 1]);
            assert(full.reverse()[r@.len() as int] == full[full.len() - 1 - r@.len()]);
        }
        r.push(l);
        proof {
            assert(r@.map_values(|x: Vec<u8>| x@) =~= m0.push(l@));
            assert(m0.push(l@) =~= full.reverse().take(r@.len() as int));
            assert(parts@.map_values(|x: Vec<u8>| x@) =~= full.take(parts@.len() as int));
        }
    }
    proof {
        assert(r@.map_values(|l: Vec<u8>| l@) =~= full.reverse());
    }
    r
}

pub fn copy_prefix(v: &Vec<u8>, n: usize) -> (r: Vec<u8>)
    requires
        n <= v@.len(),
    ensures
        r@ == v@.take(n as int),
{
    let r = copy_range(v, 0, n);
    proof {
        assert(v@.subrange(0, n as int) =~= v@.take(n as int));
    }
    r
}

pub fn copy_label(l: &Vec<u8>) -> (r: Vec<u8>)
    ensures
        r@ == l@,
{
    let r = copy_range(l, 0, l.len());
    proof {
        assert(l@.subrange(0, l@.len() as int) =~= l@);
    }
    r
}

pub fn bytes_eq(a: &Vec<u8>, b: &Vec<u8>) -> (r: bool)
    ensures
        r == (a@ == b@),
{
    if a.len() != b.len() {
        proof {
            assert(a@ != b@);
        }
        return false;
    }
    let mut i: usize = 0;
    while i < a.len()
        invariant
            i <= a@.len(),
            a@.len() == b@.len(),
            forall|k: int| 0 <= k < i ==> a@[k] == b@[k],
        decreases a@.len() - i,
    {
        if a[i] != b[i] {
            return false;
        }
        i += 1;
    }
    proof {
        assert(a@ =~= b@);
    }
    true
}

/// Lexicographic order on byte strings; a proper prefix comes first.
pub open spec fn bytes_le(a: Seq<u8>, b: Seq<u8>) -> bool
    decreases a.len(),
{
    if a.len() == 0 {
        true
    } else if b.len() == 0 {
        false
    } else if a[0] < b[0] {
        true
    } else if a[0] > b[0] {
        false
    } else {
        bytes_le(a.skip(1), b.skip(1))
    }
}

/// Order on domains: lexicographic over the reverse-label sequence,
/// label by label; a parent comes before its subdomains.
pub open spec fn dom_le(a: Seq<Seq<u8>>, b: Seq<Seq<u8>>) -> bool
    decreases a.len(),
{
    if a.len() == 0 {
        true
    } else if b.len() == 0 {
        false
    } else if a[0] == b[0] {
        dom_le(a.skip(1), b.skip(1))
    } else {
        bytes_le(a[0], b[0])
    }
}

pub proof fn lemma_bytes_le_total(a: Seq<u8>, b: Seq<u8>)
    ensures
        bytes_le(a, b) || bytes_le(b, a),
    decreases a.len(),
{
    if a.len() > 0 && b.len() > 0 && a[0] == b[0] {
        lemma_bytes_le_total(a.skip(1), b.skip(1));
    }
}

pub proof fn lemma_bytes_le_antisym(a: Seq<u8>, b: Seq<u8>)
    requires
        bytes_le(a, b),
        bytes_le(b, a),
    ensures
        a == b,
    decreases a.len(),
{
    if a.len() > 0 && b.len() > 0 && a[0] == b[0] {
        lemma_bytes_le_antisym(a.skip(1), b.skip(1));
        assert(a =~= seq![a[0]] + a.skip(1));
        assert(b =~= seq![b[0]] + b.skip(1));
    }
}

pub proof fn lemma_bytes_le_trans(a: Seq<u8>, b: Seq<u8>, c: Seq<u8>)
    requires
        bytes_le(a, b),
        bytes_le(b, c),
    ensures
        bytes_le(a, c),
    decreases a.len(),
{
    if a.len() > 0 && b.len() > 0 && c.len() > 0 && a[0] == b[0] && b[0] == c[0] {
        lemma_bytes_le_trans(a.skip(1), b.skip(1), c.skip(1));
    }
}

pub proof fn lemma_dom_le_total(a: Seq<Seq<u8>>, b: Seq<Seq<u8>>)
    ensures
        dom_le(a, b) || dom_le(b, a),
    decreases a.len(),
{
    if a.len() > 0 && b.len() > 0 {
        if a[0] == b[0] {
            lemma_dom_le_total(a.skip(1), b.skip(1));
        } else {
            lemma_bytes_le_total(a[0], b[0]);
        }
    }
}

pub proof fn lemma_dom_le_trans(a: Seq<Seq<u8>>, b: Seq<Seq<u8>>, c: Seq<Seq<u8>>)
    requires
        dom_le(a, b),
        dom_le(b, c),
    ensures
        dom_le(a, c),
    decreases a.len(),
{
    if a.len() > 0 && b.len() > 0 && c.len() > 0 {
        if a[0] == b[0] && b[0] == c[0] {
            lemma_dom_le_trans(a.skip(1), b.skip(1), c.skip(1));
        } else if a[0] == b[0] {
            assert(bytes_le(a[0], c[0]));
        } else if b[0] == c[0] {
            assert(bytes_le(a[0], c[0]));
        } else {
            lemma_bytes_le_trans(a[0], b[0], c[0]);
            if a[0] == c[0] {
                lemma_bytes_le_antisym(b[0], c[0]);
            }
        }
    }
}

/// Adjacent-pair sortedness of a run of domains.
pub open spec fn doms_sorted(s: Seq<Domain>) -> bool {
    forall|i: int| 0 <= i < s.len() - 1 ==> dom_le(#[trigger] s[i]@, s[i + 1]@)
}

pub proof fn lemma_sorted_pairwise(s: Seq<Domain>, i: int, j: int)
    requires
        doms_sorted(s),
        0 <= i <= j < s.len(),
    ensures
        dom_le(s[i]@, s[j]@),
    decreases j - i,
{
    if i < j {
        lemma_sorted_pairwise(s, i, j - 1);
        lemma_dom_le_trans(s[i]@, s[j - 1]@, s[j]@);
    } else {
        lemma_dom_le_total(s[i]@, s[i]@);
    }
}

pub(crate) fn bytes_le_exec(a: &Vec<u8>, b: &Vec<u8>) -> (r: bool)
    ensures
        r == bytes_le(a@, b@),
{
    let mut i: usize = 0;
    proof {
        assert(a@.skip(0) =~= a@);
        assert(b@.skip(0) =~= b@);
    }
    while i < a.len() && i < b.len()
        invariant
            i <= a@.len(),
            i <= b@.len(),
            bytes_le(a@, b@) == bytes_le(a@.skip(i as int), b@.skip(i as int)),
        decreases a@.len() - i,
    {
        proof {
            assert(a@.skip(i as int)[0] == a@[i as int]);
            assert(b@.skip(i as int)[0] == b@[i as int]);
        }
        if a[i] < b[i] {
            return true;
        }
        if a[i] > b[i] {
            return false;
        }
        proof {
            assert(a@.skip(i as int).skip(1) =~= a@.skip(i as int + 1));
            assert(b@.skip(i as int).skip(1) =~= b@.skip(i as int + 1));
        }
        i += 1;
    }
    i == a.len()
}

fn dom_le_exec(a: &Domain, b: &Domain) -> (r: bool)
    ensures
        r == dom_le(a@, b@),
{
    let mut i: usize = 0;
    proof {
        assert(a@.skip(0) =~= a@);
        assert(b@.skip(0) =~= b@);
    }
    while i < a.labels.len() && i < b.labels.len()
        invariant
            i <= a@.len(),
            i <= b@.len(),
            dom_le(a@, b@) == dom_le(a@.skip(i as int), b@.skip(i as int)),
        decreases a@.len() - i,
    {
        proof {
            assert(a@.skip(i as int)[0] == a@[i as int]);
            assert(b@.skip(i as int)[0] == b@[i as int]);
        }
        if !bytes_eq(&a.labels[i], &b.labels[i]) {
            return bytes_le_exec(&a.labels[i], &b.labels[i]);
        }
        proof {
            assert(a@.skip(i as int).skip(1) =~= a@.skip(i as int + 1));
            assert(b@.skip(i as int).skip(1) =~= b@.skip(i as int + 1));
        }
        i += 1;
    }
    i == a.labels.len()
}

/// Sort domains into canonical order and drop every entry that is a
/// subdomain of the entry kept just before it: what remains is sorted,
/// free of adjacent subsumption, drawn from the input, and still
/// covers every input name.
#[verifier::rlimit(100)]
#[verifier::spinoff_prover]
pub fn sort_domains(domains: Vec<Domain>) -> (r: Vec<Domain>)
    ensures
        doms_sorted(r@),
        forall|i: int| 0 < i < r@.len() ==> !(#[trigger] r@[i]).subdomain_spec(r@[i - 1]),
        forall|x: Domain| r@.contains(x) ==> domains@.contains(x),
        forall|i: int| 0 <= i < domains@.len() ==> exists|j: int|
            0 <= j < r@.len() && (#[trigger] domains@[i]).subdomain_spec(r@[j]),
{
    broadcast use vstd::seq_lib::group_to_multiset_ensures;
    broadcast use vstd::multiset::group_multiset_axioms;
    broadcast use vstd::multiset::lemma_multiset_empty_len;

    let ghost input = domains@;
    let mut work = domains;
    let mut sorted: Vec<Domain> = Vec::new();
    proof {
        sorted@.to_multiset_ensures();
        assert(sorted@.to_multiset() =~= Multiset::<Domain>::empty());
        assert(sorted@.to_multiset().add(work@.to_multiset()) =~= input.to_multiset());
    }
    while work.len() > 0
        invariant
            doms_sorted(sorted@),
            sorted@.to_multiset().add(work@.to_multiset()) =~= input.to_multiset(),
            sorted@.len() > 0 ==> forall|k: int| 0 <= k < work@.len()
                ==> dom_le(sorted@.last()@, #[trigger] work@[k]@),
        decreases work@.len(),
    {
        let mut m: usize = 0;
        let mut j: usize = 1;
        proof {
            lemma_dom_le_total(work@[0]@, work@[0]@);
        }
        while j < work.len()
            invariant
                m < j <= work@.len(),
                forall|k: int| 0 <= k < j ==> dom_le(work@[m as int]@, #[trigger] work@[k]@),
            decreases work@.len() - j,
        {
            if dom_le_exec(&work[j], &work[m]) {
                proof {
                    assert forall|k: int| 0 <= k < j + 1 implies dom_le(
                        work@[j as int]@,
                        #[trigger] work@[k]@,
                    ) by {
                        if k < j {
                            lemma_dom_le_trans(work@[j as int]@, work@[m as int]@, work@[k]@);
                        } else {
                            lemma_dom_le_total(work@[j as int]@, work@[j as int]@);
                        }
                    }
                }
                m = j;
            } else {
                proof {
                    lemma_dom_le_total(work@[j as int]@, work@[m as int]@);
                }
            }
            j += 1;
        }
        let ghost w0 = work@;
        let d = work.remove(m);
        proof {
            broadcast use vstd::multiset::group_multiset_axioms;

            w0.to_multiset_ensures();
            assert(work@ == w0.remove(m as int));
            assert(w0.remove(m as int).to_multiset() =~= w0.to_multiset().remove(d));
        }
        let ghost s0 = sorted@;
        sorted.push(d);
        proof {
            broadcast use vstd::multiset::group_multiset_axioms;

            s0.to_multiset_ensures();
            w0.to_multiset_ensures();
            assert(sorted@ == s0.push(d));
            assert(sorted@.to_multiset() =~= s0.to_multiset().insert(d));
            assert(w0.to_multiset().count(d) > 0) by {
                assert(w0[m as int] == d);
                assert(w0.contains(d));
            }
            assert(sorted@.to_multiset().add(work@.to_multiset()) =~= input.to_multiset());
            assert forall|k: int| 0 <= k < work@.len() implies dom_le(
                sorted@.last()@,
                #[trigger] work@[k]@,
            ) by {
                if k < m {
                    assert(work@[k] == w0[k]);
                } else {
                    assert(work@[k] == w0[k + 1]);
                }
            }
            assert forall|i: int| 0 <= i < sorted@.len() - 1 implies dom_le(
                #[trigger] sorted@[i]@,
                sorted@[i + 1]@,
            ) by {
                if i < sorted@.len() - 2 {
                    assert(sorted@[i] == s0[i] && sorted@[i + 1] == s0[i + 1]);
                } else if s0.len() > 0 {
                    assert(sorted@[i] == s0.last());
                    assert(w0[m as int] == d);
                }
            }
        }
    }
    proof {
        work@.to_multiset_ensures();
        assert(work@.to_multiset() =~= Multiset::<Domain>::empty());
        assert(sorted@.to_multiset() =~= input.to_multiset());
    }
    let ghost full = sorted@;
    let mut work = sorted;
    let mut out: Vec<Domain> = Vec::new();
    let ghost mut p: int = 0;
    proof {
        assert(work@ =~= full.skip(0));
    }
    while work.len() > 0
        invariant
            0 <= p <= full.len(),
            work@ =~= full.skip(p),
            doms_sorted(full),
            doms_sorted(out@),
            forall|i: int| 0 < i < out@.len() ==> !(#[trigger] out@[i]).subdomain_spec(
                out@[i - 1],
            ),
            forall|x: Domain| out@.contains(x) ==> full.contains(x),
            forall|k: int| 0 <= k < p ==> exists|j: int|
                0 <= j < out@.len() && (#[trigger] full[k]).subdomain_spec(out@[j]),
            out@.len() > 0 ==> full.contains(out@.last()),
            out@.len() > 0 ==> forall|k: int| p <= k < full.len()
                ==> dom_le(out@.last()@, #[trigger] full[k]@),
        decreases work@.len(),
    {
        let ghost w0 = work@;
        let ghost o0 = out@;
        let d = work.remove(0);
        proof {
            assert(d == full[p]);
            assert(work@ =~= full.skip(p + 1));
        }
        let keep = if out.len() == 0 {
            true
        } else {
            !d.subdomain_of(&out[out.len() - 1])
        };
        if keep {
            out.push(d);
            proof {
                assert(out@.last() == d);
                assert(full.contains(full[p]));
                assert forall|k: int| p + 1 <= k < full.len() implies dom_le(
                    out@.last()@,
                    #[trigger] full[k]@,
                ) by {
                    lemma_sorted_pairwise(full, p, k);
                }
                assert forall|k: int| 0 <= k < p + 1 implies exists|j: int|
                    0 <= j < out@.len() && (#[trigger] full[k]).subdomain_spec(out@[j]) by {
                    if k < p {
                        let j0 = choose|j: int|
                            0 <= j < o0.len() && (#[trigger] full[k]).subdomain_spec(o0[j]);
                        assert(out@[j0] == o0[j0]);
                        assert(full[k].subdomain_spec(out@[j0]));
                    } else {
                        assert(d@.take(d@.len() as int) =~= d@);
                        assert(d.subdomain_spec(d));
                        assert(full[k].subdomain_spec(out@[out@.len() - 1]));
                    }
                }
                assert forall|i: int| 0 <= i < out@.len() - 1 implies dom_le(
                    #[trigger] out@[i]@,
                    out@[i + 1]@,
                ) by {
                    if i < out@.len() - 2 {
                        assert(out@[i] == o0[i] && out@[i + 1] == o0[i + 1]);
                    } else {
                        assert(out@[i] == o0.last());
                    }
                }
            }
        } else {
            proof {
                assert(d.subdomain_spec(o0[o0.len() - 1]));
                assert forall|k: int| 0 <= k < p + 1 implies exists|j: int|
                    0 <= j < out@.len() && (#[trigger] full[k]).subdomain_spec(out@[j]) by {
                    if k < p {
                        let j0 = choose|j: int|
                            0 <= j < o0.len() && (#[trigger] full[k]).subdomain_spec(o0[j]);
                        assert(full[k].subdomain_spec(out@[j0]));
                    } else {
                        assert(full[k].subdomain_spec(out@[out@.len() - 1]));
                    }
                }
                assert forall|k: int| p + 1 <= k < full.len() implies dom_le(
                    out@.last()@,
                    #[trigger] full[k]@,
                ) by {
                    lemma_sorted_pairwise(full, p, k);
                    lemma_dom_le_trans(out@.last()@, full[p as int]@, full[k]@);
                }
            }
        }
        proof {
            p = p + 1;
        }
    }
    proof {
        full.to_multiset_ensures();
        input.to_multiset_ensures();
        assert(full.skip(p) =~= work@);
        assert(p == full.len());
        assert forall|x: Domain| out@.contains(x) implies input.contains(x) by {
            assert(full.contains(x));
            assert(full.to_multiset().count(x) > 0);
        }
        assert forall|i: int| 0 <= i < input.len() implies exists|j: int|
            0 <= j < out@.len() && (#[trigger] input[i]).subdomain_spec(out@[j]) by {
            assert(input.contains(input[i]));
            assert(input.to_multiset().count(input[i]) > 0);
            assert(full.contains(input[i]));
            let k = choose|k: int| 0 <= k < full.len() && full[k] == input[i];
            assert(0 <= k < full.len() && full[k] == input[i]);
            let j0 = choose|j: int|
                0 <= j < out@.len() && (#[trigger] full[k]).subdomain_spec(out@[j]);
            assert(input[i].subdomain_spec(out@[j0]));
        }
    }
    out
}

/// True iff no dot-separated part of `s` reads as a decimal number the
/// way an address would; such names are rejected by the blocklist feed.
pub fn is_valid_domain(s: &str) -> (r: bool)
    ensures
        r == (forall|i: int| 0 <= i < split_dots(s.spec_bytes()).len()
            ==> !numeric_label(#[trigger] split_dots(s.spec_bytes())[i])),
{
    let raw = s.as_bytes_vec();
    let parts = split_bytes(&raw);
    let ghost ls = split_dots(s.spec_bytes());
    let mut i: usize = 0;
    while i < parts.len()
        invariant
            i <= parts@.len(),
            ls == parts@.map_values(|l: Vec<u8>| l@),
            ls == split_dots(s.spec_bytes()),
            forall|k: int| 0 <= k < i ==> !numeric_label(#[trigger] ls[k]),
        decreases parts@.len() - i,
    {
        if numeric_label_exec(&parts[i]) {
            proof {
                assert(numeric_label(ls[i as int]));
                assert(!(forall|k: int| 0 <= k < ls.len() ==> !numeric_label(#[trigger] ls[k])))
                    by {
                    assert(0 <= i < ls.len() && numeric_label(ls[i as int]));
                }
            }
            return false;
        }
        i += 1;
    }
    true
}

} // verus!
