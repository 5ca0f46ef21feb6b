//! Sector aggregation: grouping admitted stocks by sector, qualifying the
//! sectors that cluster at least three admitted names (a single admitted
//! stock is more likely an artifact than a sector rotation), and re-ranking
//! the surviving candidates by session return.

use vstd::prelude::*;

use crate::d_logic::{evaluate_d_logic_before, rate_candidates, DStock};
use crate::price_calculator::window_rate;
use crate::rate::{rate_wf, Rate};
use crate::stock_info::{StockInfoManager, StockV};
use crate::store::ScreenError;
use crate::times::{date_to_num, is_date, is_time, time_to_minutes};

verus! {

pub open spec fn dstock_views(s: Seq<DStock>) -> Seq<StockV> {
    s.map_values(|d: DStock| d@)
}

pub open spec fn string_views(s: Seq<String>) -> Seq<Seq<char>> {
    s.map_values(|x: String| x@)
}

/// The sectors of a stock list, in order, with repeats.
pub open spec fn sectors_of(s: Seq<StockV>) -> Seq<Seq<char>> {
    s.map_values(|v: StockV| v.sector)
}

/// The distinct values of `s` in first-appearance order.
pub open spec fn dedup_first(s: Seq<Seq<char>>) -> Seq<Seq<char>>
    decreases s.len(),
{
    if s.len() == 0 {
        Seq::empty()
    } else {
        let d = dedup_first(s.drop_last());
        if d.contains(s.last()) {
            d
        } else {
            d.push(s.last())
        }
    }
}

/// How many stocks of `s` carry sector `sec`.
pub open spec fn count_matching(s: Seq<StockV>, sec: Seq<char>) -> int {
    s.filter(|v: StockV| v.sector == sec).len() as int
}

/// The qualifying sectors of a stock list: those carried by at least three
/// of its stocks, in first-appearance order, each once.
pub open spec fn qualifying_sectors(s: Seq<StockV>) -> Seq<Seq<char>> {
    dedup_first(sectors_of(s)).filter(|sec: Seq<char>| count_matching(s, sec) >= 3)
}

pub(crate) fn contains_string(v: &Vec<String>, s: &String) -> (r: bool)
    ensures
        r == string_views(v@).contains(s@),
{
    let mut j: usize = 0;
    while j < v.len()
        invariant
            j <= v@.len(),
            forall|k: int| 0 <= k < j ==> string_views(v@)[k] != s@,
        decreases v@.len() - j,
    {
        if v[j].eq(s) {
            proof {
                assert(string_views(v@)[j as int] == s@);
            }
            return true;
        }
        j += 1;
    }
    false
}

fn count_sector(ds: &Vec<DStock>, sec: &String) -> (cnt: usize)
    ensures
        cnt == count_matching(dstock_views(ds@), sec@),
{
    let ghost pred = |v: StockV| v.sector == sec@;
    let mut cnt: usize = 0;
    let mut i: usize = 0;
    proof {
        reveal(Seq::filter);
        assert(dstock_views(ds@.take(0)) =~= Seq::<StockV>::empty());
    }
    while i < ds.len()
        invariant
            i <= ds@.len(),
            cnt <= i,
            pred == (|v: StockV| v.sector == sec@),
            cnt == dstock_views(ds@.take(i as int)).filter(pred).len(),
        decreases ds@.len() - i,
    {
        let ghost prefix = dstock_views(ds@.take(i as int));
        proof {
            reveal(Seq::filter);
            assert(dstock_views(ds@.take(i + 1)) =~= prefix.push(ds@[i as int]@));
            assert(prefix.push(ds@[i as int]@).drop_last() =~= prefix);
        }
        if ds[i].sector.eq(sec) {
            cnt += 1;
        }
        i += 1;
    }
    proof {
        assert(ds@.take(ds@.len() as int) =~= ds@);
        assert(dstock_views(ds@.take(ds@.len() as int)) =~= dstock_views(ds@));
    }
    cnt
}

/// The sectors that at least three stocks of `ds` carry, in first-appearance
/// order, each named once.
pub fn find_sectors_with_3_or_more(ds: &Vec<DStock>) -> (r: Vec<String>)
    ensures
        string_views(r@) == qualifying_sectors(dstock_views(ds@)),
        string_views(r@).no_duplicates(),
{
    let ghost all = dstock_views(ds@);
    let mut distinct: Vec<String> = Vec::new();
    let mut i: usize = 0;
    proof {
        assert(sectors_of(dstock_views(ds@.take(0))) =~= Seq::<Seq<char>>::empty());
        assert(string_views(distinct@) =~= Seq::<Seq<char>>::empty());
    }
    while i < ds.len()
        invariant
            i <= ds@.len(),
            string_views(distinct@) == dedup_first(sectors_of(dstock_views(ds@.take(i as int)))),
            string_views(distinct@).no_duplicates(),
        decreases ds@.len() - i,
    {
        let ghost secs = sectors_of(dstock_views(ds@.take(i as int)));
        proof {
            assert(sectors_of(dstock_views(ds@.take(i + 1))) =~= secs.push(ds@[i as int]@.sector));
            assert(secs.push(ds@[i as int]@.sector).drop_last() =~= secs);
        }
        if !contains_string(&distinct, &ds[i].sector) {
            let ghost prev = distinct@;
            let s = ds[i].sector.clone();
            distinct.push(s);
            proof {
                assert(string_views(distinct@) =~= string_views(prev).push(ds@[i as int]@.sector));
                assert forall|a: int, b: int| 0 <= a < b < string_views(distinct@).len() implies
                    string_views(distinct@)[a] != string_views(distinct@)[b] by {
                    if b == string_views(distinct@).len() - 1 {
                        assert(!string_views(prev).contains(ds@[i as int]@.sector));
                        assert(string_views(prev)[a] != ds@[i as int]@.sector);
                    }
                }
            }
        }
        i += 1;
    }
    proof {
        assert(ds@.take(ds@.len() as int) =~= ds@);
        assert(sectors_of(dstock_views(ds@.take(ds@.len() as int))) =~= sectors_of(
            dstock_views(ds@),
        ));
    }
    let ghost dd = dedup_first(sectors_of(all));
    let ghost qual = |sec: Seq<char>| count_matching(all, sec) >= 3;
    let mut out: Vec<String> = Vec::new();
    let mut k: usize = 0;
    proof {
        reveal(Seq::filter);
        assert(dd.take(0) =~= Seq::<Seq<char>>::empty());
        assert(string_views(out@) =~= dd.take(0).filter(qual));
    }
    while k < distinct.len()
        invariant
            k <= distinct@.len(),
            all == dstock_views(ds@),
            qual == (|sec: Seq<char>| count_matching(all, sec) >= 3),
            dd == dedup_first(sectors_of(all)),
            string_views(distinct@) == dd,
            dd.no_duplicates(),
            string_views(out@) == dd.take(k as int).filter(qual),
            string_views(out@).no_duplicates(),
            forall|a: int| #![trigger string_views(out@)[a]]
                0 <= a < out@.len() ==> exists|j: int|
                    0 <= j < k && string_views(out@)[a] == #[trigger] dd[j],
        decreases distinct@.len() - k,
    {
        let ghost prefix = dd.take(k as int);
        proof {
            reveal(Seq::filter);
            assert(dd.take(k + 1) =~= prefix.push(dd[k as int]));
            assert(prefix.push(dd[k as int]).drop_last() =~= prefix);
        }
        let cnt = count_sector(ds, &distinct[k]);
        if cnt >= 3 {
            let ghost prev = out@;
            let s = distinct[k].clone();
            out.push(s);
            proof {
                assert(string_views(out@) =~= string_views(prev).push(dd[k as int]));
                assert forall|a: int, b: int| 0 <= a < b < string_views(out@).len() implies
                    string_views(out@)[a] != string_views(out@)[b] by {
                    if b == string_views(out@).len() - 1 {
                        let j = choose|j: int|
                            0 <= j < k && string_views(prev)[a] == dd[j];
                        assert(dd[j] != dd[k as int]);
                    }
                }
                assert forall|a: int| #![trigger string_views(out@)[a]]
                    0 <= a < out@.len() implies exists|j: int|
                    0 <= j < k + 1 && string_views(out@)[a] == #[trigger] dd[j] by {
                    if a < prev.len() {
                        let j = choose|j: int|
                            0 <= j < k && string_views(prev)[a] == dd[j];
                        assert(string_views(out@)[a] == dd[j]);
                    } else {
                        assert(string_views(out@)[a] == dd[k as int]);
                    }
                }
            }
        }
        k += 1;
    }
    proof {
        assert(dd.take(distinct@.len() as int) =~= dd);
    }
    out
}

/// The mathematical image of a candidate with its computed session return.
#[verifier::ext_equal]
pub ghost struct RatedV {
    pub stock: StockV,
    pub rate: Rate,
}

/// A candidate stock together with its session return over the screening
/// window.
#[derive(Debug)]
pub struct RatedStock {
    pub stock: DStock,
    pub rate: Rate,
}

impl View for RatedStock {
    type V = RatedV;

    open spec fn view(&self) -> RatedV {
        RatedV { stock: self.stock@, rate: self.rate }
    }
}

impl Clone for RatedStock {
    fn clone(&self) -> (r: Self)
        ensures
            r == *self,
    {
        RatedStock { stock: self.stock.clone(), rate: self.rate }
    }
}

pub open spec fn rated_views(s: Seq<RatedStock>) -> Seq<RatedV> {
    s.map_values(|r: RatedStock| r@)
}

/// The stocks of a rated list, rates dropped.
pub open spec fn stocks_of(s: Seq<RatedV>) -> Seq<StockV> {
    s.map_values(|r: RatedV| r.stock)
}

pub open spec fn all_rates_wf(s: Seq<RatedStock>) -> bool {
    forall|i: int| 0 <= i < s.len() ==> rate_wf(#[trigger] s[i].rate)
}

/// At least as large, as rationals with positive denominators.
pub open spec fn rate_ge(a: Rate, b: Rate) -> bool {
    a.num * b.den >= b.num * a.den
}

/// The best-returning entry of `rs`, earliest first on equal returns:
/// a later entry replaces the running best only when strictly greater.
pub open spec fn best_of(rs: Seq<RatedV>) -> RatedV
    decreases rs.len(),
{
    if rs.len() <= 1 {
        rs[0]
    } else {
        let b = best_of(rs.drop_last());
        if rs.last().rate.spec_gt(b.rate) {
            rs.last()
        } else {
            b
        }
    }
}

pub proof fn lemma_best_of_in(rs: Seq<RatedV>)
    requires
        rs.len() > 0,
    ensures
        exists|i: int| 0 <= i < rs.len() && best_of(rs) == rs[i],
    decreases rs.len(),
{
    if rs.len() == 1 {
        assert(best_of(rs) == rs[0]);
    } else {
        lemma_best_of_in(rs.drop_last());
        if rs.last().rate.spec_gt(best_of(rs.drop_last()).rate) {
            assert(best_of(rs) == rs[rs.len() - 1]);
        } else {
            let i = choose|i: int|
                0 <= i < rs.drop_last().len() && best_of(rs.drop_last()) == rs.drop_last()[i];
            assert(best_of(rs) == rs[i]);
        }
    }
}

/// One best entry for each sector of `secs` that has candidates in `rs`, in
/// sector order.
pub open spec fn per_sector_best(rs: Seq<RatedV>, secs: Seq<Seq<char>>) -> Seq<RatedV>
    decreases secs.len(),
{
    if secs.len() == 0 {
        Seq::empty()
    } else {
        let rest = per_sector_best(rs, secs.drop_last());
        let f = rs.filter(|r: RatedV| r.stock.sector == secs.last());
        if f.len() > 0 {
            rest.push(best_of(f))
        } else {
            rest
        }
    }
}

/// Where `x` belongs in a descending-by-return list: after every earlier
/// entry whose return is at least `x`'s, keeping equal returns in first-seen
/// order.
pub open spec fn insert_desc_rated(s: Seq<RatedV>, x: RatedV) -> Seq<RatedV>
    decreases s.len(),
{
    if s.len() == 0 {
        seq![x]
    } else if rate_ge(s[0].rate, x.rate) {
        seq![s[0]] + insert_desc_rated(s.drop_first(), x)
    } else {
        seq![x] + s
    }
}

/// Stable descending-by-return ordering.
pub open spec fn sort_desc_rated(s: Seq<RatedV>) -> Seq<RatedV>
    decreases s.len(),
{
    if s.len() == 0 {
        Seq::empty()
    } else {
        insert_desc_rated(sort_desc_rated(s.drop_last()), s.last())
    }
}

pub open spec fn sorted_desc_rated(s: Seq<RatedV>) -> bool {
    forall|i: int, j: int| 0 <= i < j < s.len() ==> rate_ge(s[i].rate, s[j].rate)
}

proof fn lemma_insert_desc_rated_len(s: Seq<RatedV>, x: RatedV)
    ensures
        insert_desc_rated(s, x).len() == s.len() + 1,
    decreases s.len(),
{
    if s.len() > 0 && rate_ge(s[0].rate, x.rate) {
        lemma_insert_desc_rated_len(s.drop_first(), x);
    }
}

pub proof fn lemma_sort_desc_rated_len(s: Seq<RatedV>)
    ensures
        sort_desc_rated(s).len() == s.len(),
    decreases s.len(),
{
    if s.len() > 0 {
        lemma_sort_desc_rated_len(s.drop_last());
        lemma_insert_desc_rated_len(sort_desc_rated(s.drop_last()), s.last());
    }
}

/// `insert_desc_rated` places `x` exactly at the first position whose return
/// falls below `x`'s.
proof fn lemma_insert_desc_rated_at(s: Seq<RatedV>, x: RatedV, k: int)
    requires
        0 <= k <= s.len(),
        forall|j: int| 0 <= j < k ==> rate_ge(s[j].rate, x.rate),
        k < s.len() ==> !rate_ge(s[k as int].rate, x.rate),
    ensures
        insert_desc_rated(s, x) == s.insert(k, x),
    decreases s.len(),
{
    if k == 0 {
        assert(insert_desc_rated(s, x) =~= s.insert(0, x));
    } else {
        assert(rate_ge(s[0].rate, x.rate));
        lemma_insert_desc_rated_at(s.drop_first(), x, k - 1);
        assert(seq![s[0]] + s.drop_first().insert(k - 1, x) =~= s.insert(k, x));
    }
}

fn rated_insert_pos(out: &Vec<RatedStock>, x: &RatedStock) -> (k: usize)
    requires
        all_rates_wf(out@),
        rate_wf(x.rate),
    ensures
        k <= out@.len(),
        forall|j: int| 0 <= j < k ==> rate_ge(rated_views(out@)[j].rate, x@.rate),
        k < out@.len() ==> !rate_ge(rated_views(out@)[k as int].rate, x@.rate),
{
    let mut k: usize = 0;
    while k < out.len()
        invariant
            k <= out@.len(),
            all_rates_wf(out@),
            rate_wf(x.rate),
            forall|j: int| 0 <= j < k ==> rate_ge(rated_views(out@)[j].rate, x@.rate),
        decreases out@.len() - k,
    {
        if x.rate.gt(&out[k].rate) {
            proof {
                assert(rated_views(out@)[k as int].rate == out@[k as int].rate);
            }
            return k;
        }
        proof {
            assert(rated_views(out@)[k as int].rate == out@[k as int].rate);
        }
        k += 1;
    }
    k
}

/// At-least is transitive for well-formed rates.
proof fn lemma_rate_ge_trans(a: Rate, b: Rate, c: Rate)
    requires
        rate_wf(a),
        rate_wf(b),
        rate_wf(c),
        rate_ge(a, b),
        rate_ge(b, c),
    ensures
        rate_ge(a, c),
{
    assert(rate_ge(a, c)) by (nonlinear_arith)
        requires
            a.den >= 1,
            b.den >= 1,
            c.den >= 1,
            a.num * b.den >= b.num * a.den,
            b.num * c.den >= c.num * b.den,
    {
        assert((a.num * b.den) * c.den >= (b.num * a.den) * c.den);
        assert((b.num * c.den) * a.den >= (c.num * b.den) * a.den);
        assert((a.num * c.den) * b.den >= (c.num * a.den) * b.den);
    }
}

/// Every entry of `insert_desc_rated(s, x)` is `x` or an entry of `s`.
proof fn lemma_insert_desc_rated_elems(s: Seq<RatedV>, x: RatedV)
    ensures
        forall|i: int|
            0 <= i < insert_desc_rated(s, x).len() ==> (#[trigger] insert_desc_rated(s, x)[i] == x
                || exists|j: int| 0 <= j < s.len() && insert_desc_rated(s, x)[i] == s[j]),
    decreases s.len(),
{
    if s.len() == 0 {
    } else if rate_ge(s[0].rate, x.rate) {
        lemma_insert_desc_rated_elems(s.drop_first(), x);
        let r = seq![s[0]] + insert_desc_rated(s.drop_first(), x);
        assert forall|i: int| 0 <= i < r.len() implies (#[trigger] r[i] == x || exists|j: int|
            0 <= j < s.len() && r[i] == s[j]) by {
            if i == 0 {
                assert(r[0] == s[0]);
            } else {
                let ri = insert_desc_rated(s.drop_first(), x)[i - 1];
                assert(r[i] == ri);
                if ri != x {
                    let j = choose|j: int| 0 <= j < s.drop_first().len() && ri == s.drop_first()[j];
                    assert(r[i] == s[j + 1]);
                }
            }
        }
    }
}

pub open spec fn all_rated_wf(s: Seq<RatedV>) -> bool {
    forall|i: int| 0 <= i < s.len() ==> rate_wf(#[trigger] s[i].rate)
}

proof fn lemma_insert_desc_rated_sorted(s: Seq<RatedV>, x: RatedV)
    requires
        sorted_desc_rated(s),
        all_rated_wf(s),
        rate_wf(x.rate),
    ensures
        sorted_desc_rated(insert_desc_rated(s, x)),
        all_rated_wf(insert_desc_rated(s, x)),
    decreases s.len(),
{
    lemma_insert_desc_rated_len(s, x);
    lemma_insert_desc_rated_elems(s, x);
    if s.len() == 0 {
    } else if rate_ge(s[0].rate, x.rate) {
        assert(sorted_desc_rated(s.drop_first()));
        assert(all_rated_wf(s.drop_first()));
        lemma_insert_desc_rated_sorted(s.drop_first(), x);
        lemma_insert_desc_rated_elems(s.drop_first(), x);
        let r = seq![s[0]] + insert_desc_rated(s.drop_first(), x);
        assert forall|i: int, j: int| 0 <= i < j < r.len() implies rate_ge(
            r[i].rate,
            r[j].rate,
        ) by {
            if i > 0 {
                assert(r[i] == insert_desc_rated(s.drop_first(), x)[i - 1]);
                assert(r[j] == insert_desc_rated(s.drop_first(), x)[j - 1]);
            } else {
                let rj = insert_desc_rated(s.drop_first(), x)[j - 1];
                assert(r[j] == rj);
                if rj == x {
                    assert(rate_ge(r[0].rate, rj.rate));
                } else {
                    let m = choose|m: int|
                        0 <= m < s.drop_first().len() && rj == s.drop_first()[m];
                    assert(rj == s[m + 1]);
                    assert(rate_ge(s[0].rate, s[m + 1].rate));
                }
            }
        }
        assert forall|i: int| 0 <= i < r.len() implies rate_wf(#[trigger] r[i].rate) by {
            if i > 0 {
                assert(r[i] == insert_desc_rated(s.drop_first(), x)[i - 1]);
            }
        }
    } else {
        let r = seq![x] + s;
        assert(!rate_ge(s[0].rate, x.rate));
        assert(rate_ge(x.rate, s[0].rate)) by (nonlinear_arith)
            requires
                !(s[0].rate.num * x.rate.den >= x.rate.num * s[0].rate.den),
        {}
        assert forall|i: int, j: int| 0 <= i < j < r.len() implies rate_ge(
            r[i].rate,
            r[j].rate,
        ) by {
            if i == 0 {
                assert(r[j] == s[j - 1]);
                if j == 1 {
                } else {
                    assert(rate_ge(s[0].rate, s[j - 1].rate));
                    lemma_rate_ge_trans(x.rate, s[0].rate, s[j - 1].rate);
                }
            } else {
                assert(r[i] == s[i - 1]);
                assert(r[j] == s[j - 1]);
            }
        }
    }
}

/// The stable descending-by-return sort is sorted and keeps the length.
pub proof fn lemma_sort_desc_rated_sorted(s: Seq<RatedV>)
    requires
        all_rated_wf(s),
    ensures
        sorted_desc_rated(sort_desc_rated(s)),
        all_rated_wf(sort_desc_rated(s)),
        sort_desc_rated(s).len() == s.len(),
    decreases s.len(),
{
    lemma_sort_desc_rated_len(s);
    if s.len() > 0 {
        assert(all_rated_wf(s.drop_last()));
        lemma_sort_desc_rated_sorted(s.drop_last());
        lemma_insert_desc_rated_sorted(sort_desc_rated(s.drop_last()), s.last());
    }
}

/// The best-returning candidate of `rated` carrying sector `sec`, or `None`
/// when the sector has no candidate. Equal returns keep the earlier
/// candidate: a later one takes over only when strictly greater.
pub fn best_in_sector(rated: &Vec<RatedStock>, sec: &String) -> (r: Option<RatedStock>)
    requires
        all_rates_wf(rated@),
    ensures
        r is Some <==> rated_views(rated@).filter(
            |v: RatedV| v.stock.sector == sec@,
        ).len() > 0,
        r matches Some(b) ==> b@ == best_of(
            rated_views(rated@).filter(|v: RatedV| v.stock.sector == sec@),
        ) && rate_wf(b.rate),
{
    let ghost pred = |v: RatedV| v.stock.sector == sec@;
    let mut cur: Option<RatedStock> = None;
    let mut i: usize = 0;
    proof {
        reveal(Seq::filter);
        assert(rated_views(rated@.take(0)) =~= Seq::<RatedV>::empty());
    }
    while i < rated.len()
        invariant
            i <= rated@.len(),
            all_rates_wf(rated@),
            pred == (|v: RatedV| v.stock.sector == sec@),
            cur is Some <==> rated_views(rated@.take(i as int)).filter(pred).len() > 0,
            cur matches Some(b) ==> b@ == best_of(rated_views(rated@.take(i as int)).filter(pred))
                && rate_wf(b.rate),
        decreases rated@.len() - i,
    {
        let ghost f = rated_views(rated@.take(i as int)).filter(pred);
        let ghost v = rated@[i as int]@;
        proof {
            reveal(Seq::filter);
            assert(rated_views(rated@.take(i + 1)) =~= rated_views(rated@.take(i as int)).push(v));
            assert(rated_views(rated@.take(i as int)).push(v).drop_last() =~= rated_views(
                rated@.take(i as int),
            ));
            if pred(v) {
                assert(rated_views(rated@.take(i + 1)).filter(pred) == f.push(v));
                if f.len() > 0 {
                    assert(f.push(v).drop_last() =~= f);
                    assert(best_of(f.push(v)) == (if v.rate.spec_gt(best_of(f).rate) {
                        v
                    } else {
                        best_of(f)
                    }));
                } else {
                    assert(f.push(v) =~= seq![v]);
                    assert(best_of(f.push(v)) == v);
                }
            } else {
                assert(rated_views(rated@.take(i + 1)).filter(pred) == f);
            }
        }
        if rated[i].stock.sector.eq(sec) {
            match &cur {
                None => {
                    cur = Some(rated[i].clone());
                },
                Some(b) => {
                    if rated[i].rate.gt(&b.rate) {
                        cur = Some(rated[i].clone());
                    }
                },
            }
        }
        i += 1;
    }
    proof {
        assert(rated@.take(rated@.len() as int) =~= rated@);
    }
    cur
}

/// The per-sector-best selection: for each qualifying sector (taken in
/// order, each once), the best-returning candidate carrying it, the whole
/// result ordered by descending return. At most one stock comes back per
/// sector, every returned stock carries one of the given sectors, and every
/// returned entry is one of the rated candidates.
pub fn best_per_sector_sorted(rated: &Vec<RatedStock>, sectors: &Vec<String>) -> (r: Vec<
    RatedStock,
>)
    requires
        all_rates_wf(rated@),
        string_views(sectors@).no_duplicates(),
    ensures
        rated_views(r@) == sort_desc_rated(
            per_sector_best(rated_views(rated@), string_views(sectors@)),
        ),
        sorted_desc_rated(rated_views(r@)),
        forall|a: int, b: int|
            0 <= a < b < r@.len() ==> rated_views(r@)[a].stock.sector != rated_views(
                r@,
            )[b].stock.sector,
        forall|a: int|
            0 <= a < r@.len() ==> string_views(sectors@).contains(
                rated_views(r@)[a].stock.sector,
            ),
        forall|a: int|
            0 <= a < r@.len() ==> rated_views(rated@).contains(#[trigger] rated_views(r@)[a]),
{
    broadcast use vstd::seq_lib::group_filter_ensures;

    let ghost rviews = rated_views(rated@);
    let ghost svs = string_views(sectors@);
    let mut bests: Vec<RatedStock> = Vec::new();
    let mut k: usize = 0;
    proof {
        assert(svs.take(0) =~= Seq::<Seq<char>>::empty());
        assert(rated_views(bests@) =~= per_sector_best(rviews, svs.take(0)));
    }
    while k < sectors.len()
        invariant
            k <= sectors@.len(),
            rviews == rated_views(rated@),
            svs == string_views(sectors@),
            svs.no_duplicates(),
            all_rates_wf(rated@),
            all_rates_wf(bests@),
            rated_views(bests@) == per_sector_best(rviews, svs.take(k as int)),
            forall|a: int| #![trigger rated_views(bests@)[a]]
                0 <= a < bests@.len() ==> exists|j: int|
                    0 <= j < k && rated_views(bests@)[a].stock.sector == #[trigger] svs[j],
            forall|a: int, b: int|
                0 <= a < b < bests@.len() ==> rated_views(bests@)[a].stock.sector != rated_views(
                    bests@,
                )[b].stock.sector,
            forall|a: int|
                0 <= a < bests@.len() ==> rviews.contains(#[trigger] rated_views(bests@)[a]),
        decreases sectors@.len() - k,
    {
        let ghost sec = svs[k as int];
        proof {
            assert(svs.take(k + 1).drop_last() =~= svs.take(k as int));
            assert(svs.take(k + 1).last() == sec);
        }
        let found = best_in_sector(rated, &sectors[k]);
        let ghost f = rviews.filter(|v: RatedV| v.stock.sector == sec);
        match found {
            Some(b) => {
                proof {
                    lemma_best_of_in(f);
                    crate::seqs::lemma_filter_elems(rviews, |v: RatedV| v.stock.sector == sec);
                    let bi = choose|bi: int| 0 <= bi < f.len() && best_of(f) == f[bi];
                    assert(f[bi].stock.sector == sec);
                    assert(b@.stock.sector == sec);
                    assert(rviews.contains(f[bi]));
                }
                let ghost prev = bests@;
                bests.push(b);
                proof {
                    assert(rated_views(bests@) =~= rated_views(prev).push(best_of(f)));
                    assert forall|a: int|
                        0 <= a < bests@.len() implies rviews.contains(
                        #[trigger] rated_views(bests@)[a],
                    ) by {
                        if a < prev.len() {
                            assert(rated_views(bests@)[a] == rated_views(prev)[a]);
                        } else {
                            assert(rated_views(bests@)[a] == best_of(f));
                        }
                    }
                    assert forall|a: int| #![trigger rated_views(bests@)[a]]
                        0 <= a < bests@.len() implies exists|j: int|
                        0 <= j < k + 1 && rated_views(bests@)[a].stock.sector == #[trigger] svs[j] by {
                        if a < prev.len() {
                            let j = choose|j: int|
                                0 <= j < k && rated_views(prev)[a].stock.sector == svs[j];
                            assert(rated_views(bests@)[a].stock.sector == svs[j]);
                        } else {
                            assert(rated_views(bests@)[a].stock.sector == svs[k as int]);
                        }
                    }
                    assert forall|a: int, b2: int| 0 <= a < b2 < bests@.len() implies rated_views(
                        bests@,
                    )[a].stock.sector != rated_views(bests@)[b2].stock.sector by {
                        if b2 == bests@.len() - 1 {
                            let j = choose|j: int|
                                0 <= j < k && rated_views(prev)[a].stock.sector == svs[j];
                            assert(svs[j] != svs[k as int]);
                        }
                    }
                }
            },
            None => {},
        }
        k += 1;
    }
    proof {
        assert(svs.take(sectors@.len() as int) =~= svs);
    }
    let ghost bviews = rated_views(bests@);
    let mut out: Vec<RatedStock> = Vec::new();
    let mut i: usize = 0;
    proof {
        assert(bviews.take(0) =~= Seq::<RatedV>::empty());
        assert(rated_views(out@) =~= sort_desc_rated(bviews.take(0)));
    }
    while i < bests.len()
        invariant
            i <= bests@.len(),
            bviews == rated_views(bests@),
            rviews == rated_views(rated@),
            all_rates_wf(bests@),
            all_rates_wf(out@),
            forall|a: int| 0 <= a < bviews.len() ==> rviews.contains(#[trigger] bviews[a]),
            forall|a: int, b: int|
                0 <= a < b < bviews.len() ==> bviews[a].stock.sector != bviews[b].stock.sector,
            rated_views(out@) == sort_desc_rated(bviews.take(i as int)),
            forall|a: int| #![trigger rated_views(out@)[a]]
                0 <= a < out@.len() ==> exists|j: int|
                    0 <= j < i && rated_views(out@)[a] == #[trigger] bviews[j],
            forall|a: int, b: int|
                0 <= a < b < out@.len() ==> rated_views(out@)[a].stock.sector != rated_views(
                    out@,
                )[b].stock.sector,
        decreases bests@.len() - i,
    {
        let x = bests[i].clone();
        let k2 = rated_insert_pos(&out, &x);
        let ghost prev = rated_views(out@);
        out.insert(k2, x);
        proof {
            lemma_insert_desc_rated_at(prev, x@, k2 as int);
            assert(bviews.take(i + 1).drop_last() =~= bviews.take(i as int));
            assert(bviews.take(i + 1).last() == bviews[i as int]);
            assert(rated_views(out@) =~= prev.insert(k2 as int, x@));
            assert(rated_views(out@) == sort_desc_rated(bviews.take(i + 1)));
            prev.insert_ensures(k2 as int, x@);
            assert forall|a: int| #![trigger rated_views(out@)[a]]
                0 <= a < out@.len() implies exists|j: int|
                0 <= j < i + 1 && rated_views(out@)[a] == #[trigger] bviews[j] by {
                if a < k2 {
                    assert(rated_views(out@)[a] == prev[a]);
                    let j = choose|j: int| 0 <= j < i && prev[a] == bviews[j];
                    assert(rated_views(out@)[a] == bviews[j]);
                } else if a == k2 {
                    assert(rated_views(out@)[a] == bviews[i as int]);
                } else {
                    assert(rated_views(out@)[a] == prev[a - 1]);
                    let j = choose|j: int| 0 <= j < i && prev[a - 1] == bviews[j];
                    assert(rated_views(out@)[a] == bviews[j]);
                }
            }
            assert forall|a: int, b: int| 0 <= a < b < out@.len() implies rated_views(
                out@,
            )[a].stock.sector != rated_views(out@)[b].stock.sector by {
                let va = rated_views(out@)[a];
                let vb = rated_views(out@)[b];
                if a == k2 || b == k2 {
                    let other = if a == k2 {
                        vb
                    } else {
                        va
                    };
                    let oi = if a == k2 {
                        b
                    } else {
                        a
                    };
                    assert(other == (if oi < k2 {
                        prev[oi]
                    } else {
                        prev[oi - 1]
                    }));
                    let j = choose|j: int|
                        0 <= j < i && (if oi < k2 {
                            prev[oi]
                        } else {
                            prev[oi - 1]
                        }) == bviews[j];
                    assert(bviews[j].stock.sector != bviews[i as int].stock.sector);
                } else {
                    let pa = if a < k2 {
                        a
                    } else {
                        a - 1
                    };
                    let pb = if b < k2 {
                        b
                    } else {
                        b - 1
                    };
                    assert(va == prev[pa] && vb == prev[pb]);
                    assert(pa < pb);
                }
            }
        }
        i += 1;
    }
    proof {
        assert(bviews.take(bests@.len() as int) =~= bviews);
        assert(all_rated_wf(per_sector_best(rviews, svs))) by {
            assert(forall|a: int|
                0 <= a < bviews.len() ==> rate_wf(#[trigger] bviews[a].rate));
        }
        lemma_sort_desc_rated_sorted(bviews);
        assert forall|a: int| 0 <= a < out@.len() implies svs.contains(
            rated_views(out@)[a].stock.sector,
        ) by {
            let j = choose|j: int| 0 <= j < bests@.len() && rated_views(out@)[a] == bviews[j];
            let m = choose|m: int|
                0 <= m < sectors@.len() && bviews[j].stock.sector == svs[m];
            assert(svs[m] == rated_views(out@)[a].stock.sector);
        }
        assert forall|a: int| 0 <= a < out@.len() implies rated_views(rated@).contains(
            #[trigger] rated_views(out@)[a],
        ) by {
            let j = choose|j: int| 0 <= j < bests@.len() && rated_views(out@)[a] == bviews[j];
            assert(rviews.contains(bviews[j]));
        }
    }
    out
}

/// Every qualifying sector is carried by at least three stocks of the list
/// it qualified from.
pub proof fn lemma_qualifying_sectors_min_count(s: Seq<StockV>)
    ensures
        forall|i: int|
            0 <= i < qualifying_sectors(s).len() ==> count_matching(
                s,
                #[trigger] qualifying_sectors(s)[i],
            ) >= 3,
{
    broadcast use vstd::seq_lib::group_filter_ensures;

}

/// The session return of one candidate over `[09:00, to]`, the same window
/// the admission test uses, so that ranking and admission read one signal.
pub fn calculate_d_period_increase_rate(
    conn: &rusqlite::Connection,
    stock_code: &str,
    date_num: i64,
    to: &str,
) -> (r: Result<Rate, ScreenError>)
    requires
        0 <= date_num <= 99999999,
        is_time(to@),
    ensures
        r matches Ok(rate) ==> rate_wf(rate),
{
    let to_min = time_to_minutes(to);
    window_rate(conn, stock_code, date_num, 540, to_min)
}

/// The per-sector-best re-ranking over a window's admitted stocks: qualifies
/// sectors from the historical union of admitted names (three or more per
/// sector), keeps the window's candidates of qualifying sectors, and returns
/// each such sector's best-returning stock, ordered by descending session
/// return — at most one stock per sector, every one of them drawn from the
/// given candidates. An empty result, never an error, when no sector
/// qualifies or no candidate survives; only a store-level failure is an
/// error.
pub fn select_best_stock_by_increase_rate(
    conn: &rusqlite::Connection,
    mgr: &StockInfoManager,
    ds: Vec<DStock>,
    date: &str,
    to: &str,
) -> (r: Result<Vec<DStock>, ScreenError>)
    requires
        is_date(date@),
        is_time(to@),
    ensures
        r matches Ok(v) ==> forall|a: int, b: int|
            0 <= a < b < v@.len() ==> (#[trigger] v@[a])@.sector != (#[trigger] v@[b])@.sector,
        r matches Ok(v) ==> forall|a: int|
            0 <= a < v@.len() ==> dstock_views(ds@).contains((#[trigger] v@[a])@),
        r matches Err(e) ==> e is Store,
{
    let ds_before = match evaluate_d_logic_before(conn, mgr, date, to) {
        Ok(v) => v,
        Err(e) => {
            return Err(e);
        },
    };
    let sectors = find_sectors_with_3_or_more(&ds_before);
    if sectors.len() == 0 {
        return Ok(Vec::new());
    }
    let selected = filter_by_sectors(&ds, &sectors);
    if selected.len() == 0 {
        return Ok(Vec::new());
    }
    let date_num = date_to_num(date);
    let to_min = time_to_minutes(to);
    let rated = rate_candidates(conn, &selected, date_num, to_min);
    let best = best_per_sector_sorted(&rated, &sectors);
    let mut out: Vec<DStock> = Vec::new();
    let mut i: usize = 0;
    while i < best.len()
        invariant
            i <= best@.len(),
            out@.len() == i,
            forall|j: int| 0 <= j < i ==> (#[trigger] out@[j])@ == best@[j]@.stock,
            forall|a: int, b: int|
                0 <= a < b < best@.len() ==> rated_views(best@)[a].stock.sector != rated_views(
                    best@,
                )[b].stock.sector,
        decreases best@.len() - i,
    {
        let b = best[i].stock.clone();
        out.push(b);
        i += 1;
    }
    proof {
        assert forall|a: int, b: int| 0 <= a < b < out@.len() implies (#[trigger] out@[a])@.sector
            != (#[trigger] out@[b])@.sector by {
            assert(out@[a]@ == rated_views(best@)[a].stock);
            assert(out@[b]@ == rated_views(best@)[b].stock);
        }
        crate::seqs::lemma_subsequence_contains(
            stocks_of(rated_views(rated@)),
            dstock_views(selected@),
        );
        assert forall|a: int| 0 <= a < out@.len() implies dstock_views(ds@).contains(
            (#[trigger] out@[a])@,
        ) by {
            assert(out@[a]@ == rated_views(best@)[a].stock);
            assert(rated_views(rated@).contains(rated_views(best@)[a]));
            let j = choose|j: int|
                0 <= j < rated_views(rated@).len() && rated_views(rated@)[j] == rated_views(
                    best@,
                )[a];
            assert(stocks_of(rated_views(rated@))[j] == rated_views(best@)[a].stock);
            assert(dstock_views(selected@).contains(stocks_of(rated_views(rated@))[j]));
            let m = choose|m: int|
                0 <= m < dstock_views(selected@).len() && dstock_views(selected@)[m]
                    == rated_views(best@)[a].stock;
            assert(dstock_views(ds@).contains(dstock_views(selected@)[m]));
        }
    }
    Ok(out)
}

/// The single-best selection: the best-returning candidate overall, earliest
/// first on ties, or nothing when there are no candidates. What comes back
/// is one of the candidates.
pub fn select_single_best(rated: &Vec<RatedStock>) -> (r: Option<RatedStock>)
    requires
        all_rates_wf(rated@),
    ensures
        r is Some <==> rated@.len() > 0,
        r matches Some(b) ==> b@ == best_of(rated_views(rated@)) && rated_views(rated@).contains(
            b@,
        ),
{
    let mut cur: Option<RatedStock> = None;
    let mut i: usize = 0;
    while i < rated.len()
        invariant
            i <= rated@.len(),
            all_rates_wf(rated@),
            cur is Some <==> i > 0,
            cur matches Some(b) ==> b@ == best_of(rated_views(rated@.take(i as int)))
                && rate_wf(b.rate),
        decreases rated@.len() - i,
    {
        let ghost pv = rated_views(rated@.take(i as int));
        let ghost v = rated@[i as int]@;
        proof {
            assert(rated_views(rated@.take(i + 1)) =~= pv.push(v));
            assert(pv.push(v).drop_last() =~= pv);
            if pv.len() > 0 {
                assert(best_of(pv.push(v)) == (if v.rate.spec_gt(best_of(pv).rate) {
                    v
                } else {
                    best_of(pv)
                }));
            } else {
                assert(best_of(pv.push(v)) == v);
            }
        }
        match &cur {
            None => {
                cur = Some(rated[i].clone());
            },
            Some(b) => {
                if rated[i].rate.gt(&b.rate) {
                    cur = Some(rated[i].clone());
                }
            },
        }
        i += 1;
    }
    proof {
        assert(rated@.take(rated@.len() as int) =~= rated@);
        if rated@.len() > 0 {
            lemma_best_of_in(rated_views(rated@));
            let j = choose|j: int|
                0 <= j < rated_views(rated@).len() && best_of(rated_views(rated@))
                    == rated_views(rated@)[j];
            assert(rated_views(rated@)[j] == best_of(rated_views(rated@)));
        }
    }
    cur
}

/// The stocks of `ds` whose sector stands in `sectors`, in order.
pub fn filter_by_sectors(ds: &Vec<DStock>, sectors: &Vec<String>) -> (r: Vec<DStock>)
    ensures
        dstock_views(r@) == dstock_views(ds@).filter(
            |v: StockV| string_views(sectors@).contains(v.sector),
        ),
        forall|i: int|
            0 <= i < r@.len() ==> dstock_views(ds@).contains(#[trigger] dstock_views(r@)[i]),
{
    let ghost pred = |v: StockV| string_views(sectors@).contains(v.sector);
    let mut out: Vec<DStock> = Vec::new();
    let mut i: usize = 0;
    proof {
        reveal(Seq::filter);
        assert(dstock_views(ds@.take(0)) =~= Seq::<StockV>::empty());
        assert(dstock_views(out@) =~= Seq::<StockV>::empty());
    }
    while i < ds.len()
        invariant
            i <= ds@.len(),
            pred == (|v: StockV| string_views(sectors@).contains(v.sector)),
            dstock_views(out@) == dstock_views(ds@.take(i as int)).filter(pred),
            forall|a: int|
                0 <= a < out@.len() ==> dstock_views(ds@).contains(
                    #[trigger] dstock_views(out@)[a],
                ),
        decreases ds@.len() - i,
    {
        let ghost prefix = dstock_views(ds@.take(i as int));
        proof {
            reveal(Seq::filter);
            assert(dstock_views(ds@.take(i + 1)) =~= prefix.push(ds@[i as int]@));
            assert(prefix.push(ds@[i as int]@).drop_last() =~= prefix);
        }
        if contains_string(sectors, &ds[i].sector) {
            let ghost prev = out@;
            let d = ds[i].clone();
            out.push(d);
            proof {
                assert(dstock_views(out@) =~= dstock_views(prev).push(ds@[i as int]@));
                assert forall|a: int|
                    0 <= a < out@.len() implies dstock_views(ds@).contains(
                    #[trigger] dstock_views(out@)[a],
                ) by {
                    if a < prev.len() {
                        assert(dstock_views(out@)[a] == dstock_views(prev)[a]);
                    } else {
                        assert(dstock_views(out@)[a] == dstock_views(ds@)[i as int]);
                    }
                }
            }
        }
        i += 1;
    }
    proof {
        assert(ds@.take(ds@.len() as int) =~= ds@);
        assert(dstock_views(ds@.take(ds@.len() as int)) =~= dstock_views(ds@));
    }
    out
}

} // verus!
