//! Column selections as written by a user: a comma-separated list whose
//! items are 1-based column numbers or, where the first row holds headers,
//! header names.

use crate::record::strictly_ascending;
use vstd::prelude::*;

verus! {

/// `s` split at each comma, `cur` being the part of the first piece that
/// was already read.
pub open spec fn split_commas_from(s: Seq<u8>, cur: Seq<u8>) -> Seq<Seq<u8>>
    decreases s.len(),
{
    if s.len() == 0 {
        seq![cur]
    } else if s[0] == 44u8 {
        seq![cur] + split_commas_from(s.drop_first(), Seq::empty())
    } else {
        split_commas_from(s.drop_first(), cur.push(s[0]))
    }
}

/// The pieces of `s` between commas.
pub open spec fn split_commas(s: Seq<u8>) -> Seq<Seq<u8>> {
    split_commas_from(s, Seq::empty())
}

pub open spec fn is_digit(b: u8) -> bool {
    48 <= b <= 57
}

pub open spec fn all_digits(s: Seq<u8>) -> bool {
    forall|i: int| 0 <= i < s.len() ==> is_digit(#[trigger] s[i])
}

/// The number that the decimal digits `s` write.
pub open spec fn decimal_value(s: Seq<u8>) -> nat
    decreases s.len(),
{
    if s.len() == 0 {
        0
    } else {
        decimal_value(s.drop_last()) * 10 + (s.last() - 48) as nat
    }
}

/// Whether some header equals `item`.
pub open spec fn has_header(headers: Seq<Seq<u8>>, item: Seq<u8>) -> bool {
    exists|i: int| 0 <= i < headers.len() && headers[i] == item
}

/// The column that one selector names: a number `n` from 1 to the width
/// names column `n - 1`; otherwise, where names are allowed, the first
/// header equal to the selector names its column.
pub open spec fn selector_column(item: Seq<u8>, headers: Seq<Seq<u8>>, by_name: bool) -> Option<int> {
    if item.len() > 0 && all_digits(item) && 1 <= decimal_value(item) <= headers.len() {
        Some(decimal_value(item) - 1)
    } else if item.len() > 0 && all_digits(item) && !by_name {
        None
    } else if by_name && has_header(headers, item) {
        Some(
            choose|i: int|
                0 <= i < headers.len() && headers[i] == item && forall|k: int|
                    0 <= k < i ==> headers[k] != item,
        )
    } else {
        None
    }
}

/// Why a selection could not be resolved.
#[derive(Clone, Copy, Debug, PartialEq, Eq, Structural)]
pub enum SelectionError {
    /// A selector names no column of the table.
    UnknownColumn,
}

proof fn lemma_decimal_grows(s: Seq<u8>, i: int)
    requires
        0 <= i <= s.len(),
        all_digits(s),
    ensures
        decimal_value(s.take(i)) <= decimal_value(s),
    decreases s.len() - i,
{
    if i < s.len() {
        lemma_decimal_grows(s, i + 1);
        assert(s.take(i + 1).drop_last() =~= s.take(i));
    } else {
        assert(s.take(i) =~= s);
    }
}

/// The column that `item` names among `headers`, if any.
pub fn resolve_selector(item: &Vec<u8>, headers: &Vec<Vec<u8>>, by_name: bool) -> (r: Option<usize>)
    ensures
        match r {
            Some(c) => selector_column(item@, headers.deep_view(), by_name) == Some(c as int),
            None => selector_column(item@, headers.deep_view(), by_name) is None,
        },
{
    let ghost s = item@;
    let mut digits = item.len() > 0;
    let mut value: usize = 0;
    let mut i: usize = 0;
    while i < item.len() && digits
        invariant
            s == item@,
            i <= s.len(),
            digits ==> all_digits(s.take(i as int)),
            digits ==> value as nat == decimal_value(s.take(i as int)),
            digits ==> value <= headers.len(),
            !digits ==> s.len() == 0 || !all_digits(s) || decimal_value(s) > headers.len(),
        decreases s.len() - i + (if digits { 1int } else { 0int }),
    {
        let b = item[i];
        assert(s.take(i as int + 1).drop_last() =~= s.take(i as int));
        assert(s.take(i as int + 1).last() == b);
        if b < 48 || b > 57 {
            digits = false;
            assert(!all_digits(s)) by {
                assert(!is_digit(s[i as int]));
            }
        } else {
            let d = (b - 48) as usize;
            if d > headers.len() || value > (headers.len() - d) / 10 {
                digits = false;
                proof {
                    if all_digits(s) {
                        assert(all_digits(s.take(i as int + 1)));
                        lemma_decimal_grows(s, i as int + 1);
                        assert(value * 10 + d > headers.len()) by (nonlinear_arith)
                            requires
                                d > headers.len() || value > (headers.len() - d) / 10,
                                d <= 9,
                        ;
                    }
                }
            } else {
                proof {
                    assert(value * 10 + d <= headers.len()) by (nonlinear_arith)
                        requires
                            value <= (headers.len() - d) / 10,
                            d <= headers.len(),
                    ;
                }
                value = value * 10 + d;
                assert(all_digits(s.take(i as int + 1))) by {
                    assert forall|k: int| 0 <= k < i as int + 1 implies is_digit(#[trigger] s.take(i as int + 1)[k]) by {
                        if k < i {
                            assert(s.take(i as int + 1)[k] == s.take(i as int)[k]);
                        }
                    }
                }
            }
        }
        i = i + 1;
    }
    if digits {
        assert(s.take(i as int) =~= s);
    }
    if digits && value >= 1 {
        return Some(value - 1);
    }
    if digits && !by_name {
        return None;
    }
    if !by_name {
        return None;
    }
    let mut h: usize = 0;
    while h < headers.len()
        invariant
            s == item@,
            by_name,
            !(s.len() > 0 && all_digits(s) && 1 <= decimal_value(s) <= headers.deep_view().len()),
            h <= headers@.len(),
            forall|k: int| 0 <= k < h ==> headers.deep_view()[k] != item@,
        decreases headers.len() - h,
    {
        assert(headers.deep_view()[h as int] =~= headers@[h as int]@);
        if crate::memory::same_key_field(&headers[h], item) {
            proof {
                let hv = headers.deep_view();
                assert(has_header(hv, s));
                let c = choose|c: int|
                    0 <= c < hv.len() && hv[c] == s && forall|k: int| 0 <= k < c ==> hv[k] != s;
                assert(0 <= h < hv.len() && hv[h as int] == s && forall|k: int| 0 <= k < h ==> hv[k] != s);
                if c < h {
                } else if c > h {
                    assert(hv[h as int] != s);
                }
            }
            return Some(h);
        }
        h = h + 1;
    }
    None
}


/// The pieces of `s` between commas.
pub fn split_selection(s: &Vec<u8>) -> (r: Vec<Vec<u8>>)
    ensures
        r.deep_view() == split_commas(s@),
{
    let mut done: Vec<Vec<u8>> = Vec::new();
    let mut cur: Vec<u8> = Vec::new();
    let mut i: usize = 0;
    assert(s@.skip(0) =~= s@);
    while i < s.len()
        invariant
            i <= s@.len(),
            split_commas(s@) == done.deep_view() + split_commas_from(s@.skip(i as int), cur@),
        decreases s.len() - i,
    {
        assert(s@.skip(i as int).drop_first() =~= s@.skip(i as int + 1));
        assert(s@.skip(i as int)[0] == s@[i as int]);
        let b = s[i];
        if b == 44u8 {
            let ghost prev = done.deep_view();
            let ghost piece = cur@;
            assert(cur.deep_view() =~= cur@);
            done.push(cur);
            cur = Vec::new();
            assert(done.deep_view() =~= prev.push(piece));
            assert(cur@ =~= Seq::<u8>::empty());
            assert(prev + (seq![piece] + split_commas_from(s@.skip(i as int + 1), cur@)) =~= prev.push(piece) + split_commas_from(s@.skip(i as int + 1), cur@));
        } else {
            cur.push(b);
        }
        i = i + 1;
    }
    assert(s@.skip(i as int) =~= Seq::<u8>::empty());
    let ghost prev = done.deep_view();
    let ghost piece = cur@;
    assert(cur.deep_view() =~= cur@);
    done.push(cur);
    assert(done.deep_view() =~= prev.push(piece));
    assert(prev + seq![piece] =~= prev.push(piece));
    done
}

/// The columns that a comma-separated list of selectors names, in the
/// order written; fails if any selector names no column.
pub fn resolve_selection(spec: &Vec<u8>, headers: &Vec<Vec<u8>>, by_name: bool) -> (r: Result<Vec<usize>, SelectionError>)
    ensures
        r is Ok <==> forall|k: int| 0 <= k < split_commas(spec@).len() ==> #[trigger] selector_column(split_commas(spec@)[k], headers.deep_view(), by_name) is Some,
        r is Ok ==> r->Ok_0@.len() == split_commas(spec@).len(),
        r is Ok ==> forall|k: int| 0 <= k < split_commas(spec@).len() ==> selector_column(#[trigger] split_commas(spec@)[k], headers.deep_view(), by_name) == Some(r->Ok_0@[k] as int),
        r is Err ==> r->Err_0 == SelectionError::UnknownColumn,
{
    let items = split_selection(spec);
    let ghost pieces = split_commas(spec@);
    let mut cols: Vec<usize> = Vec::new();
    let mut k: usize = 0;
    while k < items.len()
        invariant
            items.deep_view() == pieces,
            pieces == split_commas(spec@),
            k <= items@.len(),
            cols@.len() == k,
            forall|m: int| 0 <= m < k ==> selector_column(#[trigger] pieces[m], headers.deep_view(), by_name) == Some(cols@[m] as int),
        decreases items.len() - k,
    {
        assert(items.deep_view()[k as int] =~= items@[k as int]@);
        match resolve_selector(&items[k], headers, by_name) {
            Some(c) => {
                cols.push(c);
            },
            None => {
                assert(selector_column(pieces[k as int], headers.deep_view(), by_name) is None);
                return Err(SelectionError::UnknownColumn);
            },
        }
        k = k + 1;
    }
    Ok(cols)
}

/// The columns of `sel` in ascending order, each once.
pub fn normalize_selection(sel: &Vec<usize>) -> (r: Vec<usize>)
    ensures
        strictly_ascending(r@),
        forall|x: usize| r@.contains(x) <==> sel@.contains(x),
{
    let mut out: Vec<usize> = Vec::new();
    let mut i: usize = 0;
    while i < sel.len()
        invariant
            i <= sel@.len(),
            strictly_ascending(out@),
            forall|x: usize| out@.contains(x) <==> sel@.take(i as int).contains(x),
        decreases sel.len() - i,
    {
        let x = sel[i];
        let ghost start = out@;
        assert(sel@.take(i as int + 1) =~= sel@.take(i as int).push(x));
        let mut p: usize = 0;
        while p < out.len() && out[p] < x
            invariant
                p <= out@.len(),
                forall|q: int| 0 <= q < p ==> out@[q] < x,
            decreases out.len() - p,
        {
            p = p + 1;
        }
        if p < out.len() && out[p] == x {
            assert(out@.contains(x));
            assert forall|y: usize| out@.contains(y) <==> start.contains(y) || y == x by {}
        } else {
            let ghost before = out@;
            out.insert(p, x);
            assert(out@ =~= before.insert(p as int, x));
            assert forall|a: int, b: int| 0 <= a < b < out@.len() implies out@[a] < out@[b] by {
                if b < p {
                } else if a < p && b == p {
                } else if a < p && b > p {
                    assert(out@[b] == before[b - 1]);
                    assert(before[b - 1] > x) by {
                        assert(before[p as int] >= x);
                        assert(before[p as int] != x);
                        if b - 1 > p {
                            assert(before[p as int] < before[b - 1]);
                        }
                    }
                } else if a == p {
                    assert(out@[b] == before[b - 1]);
                    assert(before[p as int] >= x && before[p as int] != x);
                    if b - 1 > p {
                        assert(before[p as int] < before[b - 1]);
                    }
                } else {
                    assert(out@[a] == before[a - 1]);
                    assert(out@[b] == before[b - 1]);
                }
            }
            assert forall|y: usize| out@.contains(y) <==> before.contains(y) || y == x by {
                if out@.contains(y) {
                    let q = choose|q: int| 0 <= q < out@.len() && out@[q] == y;
                    if q < p {
                        assert(before[q] == y);
                    } else if q > p {
                        assert(before[q - 1] == y);
                    }
                }
                if before.contains(y) {
                    let q = choose|q: int| 0 <= q < before.len() && before[q] == y;
                    if q < p {
                        assert(out@[q] == y);
                    } else {
                        assert(out@[q + 1] == y);
                    }
                }
                if y == x {
                    assert(out@[p as int] == x);
                }
            }
        }
        assert forall|y: usize| sel@.take(i as int + 1).contains(y) <==> sel@.take(i as int).contains(y) || y == x by {
            if sel@.take(i as int + 1).contains(y) {
                let q = choose|q: int| 0 <= q < sel@.take(i as int + 1).len() && #[trigger] sel@.take(i as int + 1)[q] == y;
                if q < i {
                    assert(sel@.take(i as int)[q] == y);
                }
            }
            if sel@.take(i as int).contains(y) {
                let q = choose|q: int| 0 <= q < sel@.take(i as int).len() && #[trigger] sel@.take(i as int)[q] == y;
                assert(sel@.take(i as int + 1)[q] == y);
            }
            if y == x {
                assert(sel@.take(i as int + 1)[i as int] == x);
            }
        }
        assert forall|y: usize| out@.contains(y) <==> sel@.take(i as int + 1).contains(y) by {
            assert(start.contains(y) <==> sel@.take(i as int).contains(y));
        }
        i = i + 1;
    }
    assert(sel@.take(i as int) =~= sel@);
    out
}

} // verus!
