//! The notified-ID ledger: the set of appointment identifiers already
//! reminded, and its text form (one decimal identifier per line).
use vstd::prelude::*;

verus! {

/// ASCII code of the line separator.
pub const NEWLINE: u8 = 10;

/// ASCII code of '+', which may lead a number.
pub const PLUS: u8 = 43;

pub open spec fn is_digit(b: u8) -> bool {
    48 <= b <= 57
}

pub open spec fn all_digits(s: Seq<u8>) -> bool {
    forall|i: int| 0 <= i < s.len() ==> is_digit(#[trigger] s[i])
}

/// The value of a run of decimal digits.
pub open spec fn digits_value(s: Seq<u8>) -> nat
    decreases s.len(),
{
    if s.len() == 0 {
        0
    } else {
        digits_value(s.drop_last()) * 10 + (s.last() - 48) as nat
    }
}

/// The identifier a line stands for: an optional '+' and at least one decimal
/// digit, with a value that fits in 32 bits.
pub open spec fn number_of(line: Seq<u8>) -> Option<u32> {
    let d = if line.len() > 0 && line[0] == PLUS {
        line.drop_first()
    } else {
        line
    };
    if d.len() > 0 && all_digits(d) && digits_value(d) <= u32::MAX {
        Some(digits_value(d) as u32)
    } else {
        None
    }
}

/// The pieces between the newlines of `s` (one more than there are newlines).
pub open spec fn pieces(s: Seq<u8>) -> Seq<Seq<u8>>
    decreases s.len(),
{
    if s.len() == 0 {
        seq![Seq::empty()]
    } else {
        let p = pieces(s.drop_last());
        if s.last() == NEWLINE {
            p.push(Seq::empty())
        } else {
            p.update(p.len() - 1, p.last().push(s.last()))
        }
    }
}

/// The lines of `s`: its pieces, where a final newline ends the last line
/// rather than starting an empty one, and an empty text has none.
pub open spec fn lines(s: Seq<u8>) -> Seq<Seq<u8>> {
    if s.len() == 0 {
        Seq::empty()
    } else if s.last() == NEWLINE {
        pieces(s).drop_last()
    } else {
        pieces(s)
    }
}

/// The identifiers that a ledger text holds, in order, or `None` when a line
/// is not an identifier.
pub open spec fn decoded(s: Seq<u8>) -> Option<Seq<u32>> {
    let ls = lines(s);
    if forall|k: int| 0 <= k < ls.len() ==> (#[trigger] number_of(ls[k])) is Some {
        Some(Seq::new(ls.len(), |k: int| number_of(ls[k])->0))
    } else {
        None
    }
}

/// The shortest decimal form of `n`.
pub open spec fn decimal(n: nat) -> Seq<u8>
    decreases n,
{
    if n < 10 {
        seq![(48 + n) as u8]
    } else {
        decimal(n / 10).push((48 + n % 10) as u8)
    }
}

/// The ledger text of `ids`: their decimal forms joined by newlines.
pub open spec fn encoded(ids: Seq<u32>) -> Seq<u8>
    decreases ids.len(),
{
    if ids.len() == 0 {
        Seq::empty()
    } else if ids.len() == 1 {
        decimal(ids[0] as nat)
    } else {
        encoded(ids.drop_last()) + seq![NEWLINE] + decimal(ids.last() as nat)
    }
}

proof fn lemma_pieces_nonempty(s: Seq<u8>)
    ensures
        pieces(s).len() >= 1,
    decreases s.len(),
{
    if s.len() > 0 {
        lemma_pieces_nonempty(s.drop_last());
    }
}

/// Appending bytes without a newline extends the last piece.
proof fn lemma_pieces_append(a: Seq<u8>, b: Seq<u8>)
    requires
        forall|i: int| 0 <= i < b.len() ==> b[i] != NEWLINE,
    ensures
        pieces(a + b) == pieces(a).update(pieces(a).len() - 1, pieces(a).last() + b),
    decreases b.len(),
{
    lemma_pieces_nonempty(a);
    if b.len() == 0 {
        assert(a + b =~= a);
        assert(pieces(a).last() + b =~= pieces(a).last());
        assert(pieces(a).update(pieces(a).len() - 1, pieces(a).last()) =~= pieces(a));
    } else {
        let b0 = b.drop_last();
        lemma_pieces_append(a, b0);
        assert((a + b).drop_last() =~= a + b0);
        assert((a + b).last() == b.last());
        assert(pieces(a).last() + b =~= (pieces(a).last() + b0).push(b.last()));
    }
}

proof fn lemma_decimal(n: nat)
    ensures
        decimal(n).len() > 0,
        all_digits(decimal(n)),
        digits_value(decimal(n)) == n,
        decimal(n)[0] != PLUS,
        forall|i: int| 0 <= i < decimal(n).len() ==> decimal(n)[i] != NEWLINE,
    decreases n,
{
    if n >= 10 {
        lemma_decimal(n / 10);
        assert(decimal(n).drop_last() =~= decimal(n / 10));
        assert(n == (n / 10) * 10 + n % 10);
        assert(decimal(n).last() - 48 == n % 10);
        assert(digits_value(decimal(n)) == digits_value(decimal(n / 10)) * 10 + n % 10);
    } else {
        assert(decimal(n).drop_last() =~= Seq::<u8>::empty());
        assert(digits_value(Seq::<u8>::empty()) == 0);
        assert(decimal(n).last() - 48 == n);
    }
}

proof fn lemma_number_of_decimal(n: u32)
    ensures
        number_of(decimal(n as nat)) == Some(n),
{
    lemma_decimal(n as nat);
}

proof fn lemma_pieces_encoded(ids: Seq<u32>)
    requires
        ids.len() >= 1,
    ensures
        pieces(encoded(ids)) == Seq::new(ids.len(), |k: int| decimal(ids[k] as nat)),
    decreases ids.len(),
{
    let d = decimal(ids.last() as nat);
    lemma_decimal(ids.last() as nat);
    if ids.len() == 1 {
        lemma_pieces_append(Seq::empty(), d);
        assert(Seq::<u8>::empty() + d =~= d);
        assert(Seq::<u8>::empty() + d =~= decimal(ids[0] as nat));
        assert(pieces(encoded(ids)) =~= Seq::new(ids.len(), |k: int| decimal(ids[k] as nat)));
    } else {
        let rest = ids.drop_last();
        lemma_pieces_encoded(rest);
        let e = encoded(rest);
        let en = e.push(NEWLINE);
        assert(en.drop_last() =~= e);
        assert(pieces(en) == pieces(e).push(Seq::empty()));
        lemma_pieces_append(en, d);
        assert(encoded(ids) =~= en + d);
        assert(Seq::<u8>::empty() + d =~= d);
        assert(pieces(encoded(ids)) =~= Seq::new(ids.len(), |k: int| decimal(ids[k] as nat)));
    }
}

proof fn lemma_encoded_last(ids: Seq<u32>)
    requires
        ids.len() >= 1,
    ensures
        encoded(ids).len() > 0,
        encoded(ids).last() != NEWLINE,
{
    lemma_decimal(ids.last() as nat);
    if ids.len() == 1 {
    } else {
        let d = decimal(ids.last() as nat);
        assert(encoded(ids).last() == d.last());
    }
}

/// Writing a ledger and reading it back gives the same identifiers, in the
/// same order.
pub proof fn lemma_round_trip(ids: Seq<u32>)
    ensures
        decoded(encoded(ids)) == Some(ids),
{
    let s = encoded(ids);
    if ids.len() == 0 {
        assert(decoded(s) =~~= Some(ids));
    } else {
        lemma_pieces_encoded(ids);
        lemma_encoded_last(ids);
        let ls = lines(s);
        assert(ls == Seq::new(ids.len(), |k: int| decimal(ids[k] as nat)));
        assert forall|k: int| 0 <= k < ls.len() implies #[trigger] number_of(ls[k]) == Some(ids[k]) by {
            lemma_number_of_decimal(ids[k]);
        }
        assert(Seq::new(ls.len(), |k: int| number_of(ls[k])->0) =~= ids);
    }
}

/// Appends the decimal form of `n` to `out`.
fn push_decimal(out: &mut Vec<u8>, n: u32)
    ensures
        final(out)@ == old(out)@ + decimal(n as nat),
    decreases n,
{
    if n >= 10 {
        push_decimal(out, n / 10);
    }
    let d: u8 = (n % 10) as u8;
    out.push(48 + d);
    proof {
        if n >= 10 {
            assert(old(out)@ + decimal(n as nat) =~= (old(out)@ + decimal((n / 10) as nat)).push(
                (48 + n % 10) as u8,
            ));
        } else {
            assert(old(out)@ + decimal(n as nat) =~= old(out)@.push((48 + n % 10) as u8));
        }
    }
}

/// The ledger text of `ids`: one decimal identifier per line, in order, with
/// no newline after the last.
pub fn encode_ids(ids: &[u32]) -> (r: Vec<u8>)
    ensures
        r@ == encoded(ids@),
{
    let mut out: Vec<u8> = Vec::new();
    let mut i: usize = 0;
    while i < ids.len()
        invariant
            i <= ids.len(),
            out@ == encoded(ids@.take(i as int)),
        decreases ids.len() - i,
    {
        let ghost before = out@;
        if i > 0 {
            out.push(NEWLINE);
        }
        push_decimal(&mut out, ids[i]);
        proof {
            let t = ids@.take(i as int + 1);
            assert(t.drop_last() =~= ids@.take(i as int));
            assert(t.last() == ids@[i as int]);
            if i == 0 {
                assert(out@ =~= decimal(t[0] as nat));
            } else {
                assert(out@ =~= before + seq![NEWLINE] + decimal(t.last() as nat));
            }
        }
        i = i + 1;
    }
    assert(ids@.take(ids.len() as int) =~= ids@);
    out
}

proof fn lemma_digits_prefix(s: Seq<u8>, m: int)
    requires
        0 <= m <= s.len(),
    ensures
        digits_value(s.take(m)) <= digits_value(s),
    decreases s.len(),
{
    if m < s.len() {
        assert(s.drop_last().take(m) =~= s.take(m));
        lemma_digits_prefix(s.drop_last(), m);
    } else {
        assert(s.take(m) =~= s);
    }
}

/// The identifier written in `s[start..end]`, if it is one.
fn parse_number(s: &[u8], start: usize, end: usize) -> (r: Option<u32>)
    requires
        start <= end <= s@.len(),
    ensures
        r == number_of(s@.subrange(start as int, end as int)),
{
    let ghost line = s@.subrange(start as int, end as int);
    let mut j: usize = start;
    if j < end && s[j] == PLUS {
        j = j + 1;
    }
    let ghost d = s@.subrange(j as int, end as int);
    proof {
        if j > start {
            assert(line[0] == PLUS);
            assert(line.drop_first() =~= d);
        } else {
            assert(line =~= d);
        }
    }
    if j == end {
        return None;
    }
    let mut v: u64 = 0;
    let mut k: usize = j;
    while k < end
        invariant
            j <= k <= end <= s@.len(),
            d == s@.subrange(j as int, end as int),
            line == s@.subrange(start as int, end as int),
            d == (if line.len() > 0 && line[0] == PLUS {
                line.drop_first()
            } else {
                line
            }),
            v == digits_value(d.take(k - j)),
            v <= u32::MAX,
            all_digits(d.take(k - j)),
        decreases end - k,
    {
        let b = s[k];
        if b < 48 || b > 57 {
            assert(!is_digit(d[k - j]));
            return None;
        }
        proof {
            assert(d.take(k - j + 1).drop_last() =~= d.take(k - j));
        }
        v = v * 10 + (b - 48) as u64;
        if v > u32::MAX as u64 {
            proof {
                assert forall|i: int| 0 <= i < d.take(k - j + 1).len() implies is_digit(
                    #[trigger] d.take(k - j + 1)[i],
                ) by {
                    if i < k - j {
                        assert(d.take(k - j)[i] == d.take(k - j + 1)[i]);
                    }
                }
                if all_digits(d) {
                    lemma_digits_prefix(d, k - j + 1);
                }
            }
            return None;
        }
        proof {
            assert forall|i: int| 0 <= i < d.take(k - j + 1).len() implies is_digit(
                #[trigger] d.take(k - j + 1)[i],
            ) by {
                if i < k - j {
                    assert(d.take(k - j)[i] == d.take(k - j + 1)[i]);
                }
            }
        }
        k = k + 1;
    }
    assert(d.take(end - j) =~= d);
    Some(v as u32)
}

/// Why a ledger text could not be read.
#[derive(Debug, Clone, Copy, PartialEq, Eq, Structural)]
pub enum LedgerError {
    /// A line is not a decimal identifier that fits in 32 bits.
    Corrupt,
}

/// The identifiers of a ledger text, in order; an error when any line is not
/// an identifier. An empty text holds none.
pub fn decode_ids(s: &[u8]) -> (r: Result<Vec<u32>, LedgerError>)
    ensures
        match r {
            Ok(v) => decoded(s@) == Some(v@),
            Err(_) => decoded(s@) is None,
        },
{
    let mut out: Vec<u32> = Vec::new();
    let mut bad = false;
    let mut start: usize = 0;
    let mut i: usize = 0;
    let ghost mut count: nat = 0;
    proof {
        assert(s@.take(0) =~= Seq::<u8>::empty());
        assert(s@.subrange(0, 0) =~= Seq::<u8>::empty());
    }
    while i < s.len()
        invariant
            start <= i <= s@.len(),
            pieces(s@.take(i as int)).len() == count + 1,
            pieces(s@.take(i as int)).last() == s@.subrange(start as int, i as int),
            i > 0 && s@[i - 1] == NEWLINE ==> start == i,
            !bad ==> out@.len() == count && forall|k: int|
                0 <= k < count ==> number_of(#[trigger] pieces(s@.take(i as int))[k]) == Some(
                    out@[k],
                ),
            bad ==> exists|k: int|
                0 <= k < count && number_of(#[trigger] pieces(s@.take(i as int))[k]) is None,
        decreases s.len() - i,
    {
        let ghost p = pieces(s@.take(i as int));
        let ghost t = s@.take(i as int + 1);
        proof {
            assert(t.drop_last() =~= s@.take(i as int));
            assert(t.last() == s@[i as int]);
        }
        if s[i] == NEWLINE {
            let n = parse_number(s, start, i);
            assert(pieces(t) == p.push(Seq::empty()));
            match n {
                Some(v) => {
                    if !bad {
                        out.push(v);
                    }
                },
                None => {
                    if !bad {
                        assert(number_of(pieces(t)[count as int]) is None);
                    }
                    bad = true;
                },
            }
            proof {
                if bad {
                    let k = choose|k: int| 0 <= k < count + 1 && number_of(
                        #[trigger] pieces(s@.take(i as int))[k],
                    ) is None;
                    assert(number_of(pieces(t)[k]) is None);
                } else {
                    assert forall|k: int| 0 <= k < count + 1 implies number_of(
                        #[trigger] pieces(t)[k],
                    ) == Some(out@[k]) by {
                        if k < count {
                            assert(pieces(t)[k] == p[k]);
                        }
                    }
                }
                assert(s@.subrange(i as int + 1, i as int + 1) =~= Seq::<u8>::empty());
                count = count + 1;
            }
            start = i + 1;
        } else {
            proof {
                assert(pieces(t) == p.update(p.len() - 1, p.last().push(s@[i as int])));
                assert(s@.subrange(start as int, i as int + 1) =~= s@.subrange(
                    start as int,
                    i as int,
                ).push(s@[i as int]));
                if bad {
                    let k = choose|k: int| 0 <= k < count && number_of(
                        #[trigger] pieces(s@.take(i as int))[k],
                    ) is None;
                    assert(number_of(pieces(t)[k]) is None);
                } else {
                    assert forall|k: int| 0 <= k < count implies number_of(
                        #[trigger] pieces(t)[k],
                    ) == Some(out@[k]) by {
                        assert(pieces(t)[k] == p[k]);
                    }
                }
            }
        }
        i = i + 1;
    }
    assert(s@.take(s.len() as int) =~= s@);
    let ghost ps = pieces(s@);
    let ghost ls = lines(s@);
    if s.len() == 0 {
        assert(ls.len() == 0);
        assert(decoded(s@) == Some(Seq::<u32>::empty()));
        assert(out@ =~= Seq::<u32>::empty());
        return Ok(out);
    }
    if s[s.len() - 1] == NEWLINE {
        assert(ls == ps.drop_last());
        if bad {
            let ghost k = choose|k: int| 0 <= k < count && number_of(#[trigger] ps[k]) is None;
            assert(number_of(ls[k]) is None);
            return Err(LedgerError::Corrupt);
        }
        assert forall|k: int| 0 <= k < ls.len() implies number_of(#[trigger] ls[k]) == Some(
            out@[k],
        ) by {
            assert(ls[k] == ps[k]);
        }
        assert(Seq::new(ls.len(), |k: int| number_of(ls[k])->0) =~= out@);
        return Ok(out);
    }
    assert(ls == ps);
    let last = parse_number(s, start, s.len());
    if bad {
        let ghost k = choose|k: int| 0 <= k < count && number_of(#[trigger] ps[k]) is None;
        assert(number_of(ls[k]) is None);
        return Err(LedgerError::Corrupt);
    }
    match last {
        Some(v) => {
            out.push(v);
            assert forall|k: int| 0 <= k < ls.len() implies number_of(#[trigger] ls[k]) == Some(
                out@[k],
            ) by {}
            assert(Seq::new(ls.len(), |k: int| number_of(ls[k])->0) =~= out@);
            Ok(out)
        },
        None => {
            assert(number_of(ls[count as int]) is None);
            Err(LedgerError::Corrupt)
        },
    }
}

/// The identifiers of appointments already reminded, in the order they were
/// recorded. An identifier, once recorded, stays.
pub struct NotifiedIds {
    ids: Vec<u32>,
}

impl View for NotifiedIds {
    type V = Seq<u32>;

    closed spec fn view(&self) -> Seq<u32> {
        self.ids@
    }
}

impl NotifiedIds {
    /// A ledger with no identifiers.
    pub fn new() -> (r: NotifiedIds)
        ensures
            r@ == Seq::<u32>::empty(),
    {
        NotifiedIds { ids: Vec::new() }
    }

    /// Reads a ledger from its stored text; no stored text means no
    /// reminders were sent yet.
    pub fn load(stored: Option<&[u8]>) -> (r: Result<NotifiedIds, LedgerError>)
        ensures
            stored is None ==> r is Ok && r->Ok_0@ == Seq::<u32>::empty(),
            stored is Some ==> match r {
                Ok(n) => decoded(stored->0@) == Some(n@),
                Err(_) => decoded(stored->0@) is None,
            },
    {
        match stored {
            None => Ok(NotifiedIds::new()),
            Some(text) => match decode_ids(text) {
                Ok(ids) => Ok(NotifiedIds { ids }),
                Err(e) => Err(e),
            },
        }
    }

    /// The text that stores this ledger.
    pub fn to_text(&self) -> (r: Vec<u8>)
        ensures
            r@ == encoded(self@),
    {
        encode_ids(self.ids.as_slice())
    }

    /// Whether `id` has been recorded.
    pub fn contains(&self, id: u32) -> (r: bool)
        ensures
            r == self@.contains(id),
    {
        let mut i: usize = 0;
        while i < self.ids.len()
            invariant
                i <= self.ids@.len(),
                forall|k: int| 0 <= k < i ==> self.ids@[k] != id,
            decreases self.ids.len() - i,
        {
            if self.ids[i] == id {
                return true;
            }
            i = i + 1;
        }
        false
    }

    /// Records `id`; an identifier already present is not added again.
    pub fn insert(&mut self, id: u32)
        ensures
            final(self)@ == (if old(self)@.contains(id) {
                old(self)@
            } else {
                old(self)@.push(id)
            }),
    {
        if !self.contains(id) {
            self.ids.push(id);
        }
    }

    /// How many identifiers are recorded.
    pub fn len(&self) -> (r: usize)
        ensures
            r == self@.len(),
    {
        self.ids.len()
    }

    /// The recorded identifiers, in order.
    pub fn as_slice(&self) -> (r: &[u32])
        ensures
            r@ == self@,
    {
        self.ids.as_slice()
    }
}

} // verus!
