//! The symbol metadata resolver: an immutable reference table mapping a
//! canonical symbol code to its display name and sector. The table is built
//! once from comma-separated rows (header skipped, first three columns
//! consumed, later rows overwriting earlier ones) and then only read.
//! Resolution strips the store's `A` table prefix and never fails: a code
//! absent from the table resolves to the `unknown`/`other` sentinel.

use vstd::prelude::*;

verus! {

/// The mathematical image of one metadata record.
#[verifier::ext_equal]
pub ghost struct StockV {
    pub code: Seq<char>,
    pub name: Seq<char>,
    pub sector: Seq<char>,
}

/// One symbol's reference metadata.
#[derive(Debug)]
pub struct StockInfo {
    /// Canonical code, without any store prefix.
    pub code: String,
    /// Display name; `unknown` when the code is not in the table.
    pub name: String,
    /// Sector classification; `other` when the code is not in the table.
    pub sector: String,
}

impl View for StockInfo {
    type V = StockV;

    open spec fn view(&self) -> StockV {
        StockV { code: self.code@, name: self.name@, sector: self.sector@ }
    }
}

impl Clone for StockInfo {
    fn clone(&self) -> (r: Self)
        ensures
            r == *self,
    {
        StockInfo { code: self.code.clone(), name: self.name.clone(), sector: self.sector.clone() }
    }
}

/// What a missing code resolves to.
pub open spec fn sentinel_v(code: Seq<char>) -> StockV {
    StockV { code, name: "unknown"@, sector: "other"@ }
}

/// The record the table holds for `code`: the last row loaded for it wins,
/// and a code never loaded resolves to the sentinel.
pub open spec fn lookup(entries: Seq<StockV>, code: Seq<char>) -> StockV
    decreases entries.len(),
{
    if entries.len() == 0 {
        sentinel_v(code)
    } else if entries.last().code == code {
        entries.last()
    } else {
        lookup(entries.drop_last(), code)
    }
}

/// `code` with every leading store prefix character `A` removed.
pub open spec fn strip_prefix_a(s: Seq<char>) -> Seq<char>
    decreases s.len(),
{
    if s.len() > 0 && s[0] == 'A' {
        strip_prefix_a(s.drop_first())
    } else {
        s
    }
}

proof fn lemma_strip_at(s: Seq<char>, k: int)
    requires
        0 <= k <= s.len(),
        forall|j: int| 0 <= j < k ==> s[j] == 'A',
        k < s.len() ==> s[k as int] != 'A',
    ensures
        strip_prefix_a(s) == s.skip(k),
    decreases k,
{
    if k == 0 {
        assert(s.skip(0) =~= s);
    } else {
        lemma_strip_at(s.drop_first(), k - 1);
        assert(s.drop_first().skip(k - 1) =~= s.skip(k));
    }
}

/// Resolving a code with the store prefix prepended resolves the same as the
/// bare code: the prefix never changes what a lookup sees.
pub proof fn lemma_resolve_prefix_roundtrip(entries: Seq<StockV>, code: Seq<char>)
    ensures
        lookup(entries, strip_prefix_a(seq!['A'] + code)) == lookup(entries, strip_prefix_a(code)),
{
    assert((seq!['A'] + code).drop_first() =~= code);
    assert(strip_prefix_a(seq!['A'] + code) == strip_prefix_a(code));
}

/// The loaded reference table. Built once at startup, passed by shared
/// ownership into the screening calls, and never mutated afterwards.
pub struct StockInfoManager {
    entries: Vec<StockInfo>,
}

pub open spec fn views(entries: Seq<StockInfo>) -> Seq<StockV> {
    entries.map_values(|e: StockInfo| e@)
}

impl StockInfoManager {
    pub closed spec fn view(&self) -> Seq<StockV> {
        views(self.entries@)
    }

    /// An empty table: every code resolves to the sentinel until rows are
    /// loaded.
    pub fn new() -> (r: Self)
        ensures
            r@ == Seq::<StockV>::empty(),
    {
        let r = StockInfoManager { entries: Vec::new() };
        proof {
            assert(r@ =~= Seq::<StockV>::empty());
        }
        r
    }

    /// Resolves a raw symbol code, which may carry the store's `A` prefix:
    /// strips the prefix, then returns the last record loaded for the code,
    /// or the `unknown`/`other` sentinel when none was. Never fails.
    pub fn get_stock_info(&self, code: &str) -> (r: StockInfo)
        ensures
            r@ == lookup(self@, strip_prefix_a(code@)),
    {
        let clean = strip_prefix(code);
        let ghost key = strip_prefix_a(code@);
        let mut j = self.entries.len();
        proof {
            assert(self.entries@.take(self.entries@.len() as int) =~= self.entries@);
        }
        while j > 0
            invariant
                j <= self.entries@.len(),
                key == strip_prefix_a(code@),
                clean@ == key,
                lookup(views(self.entries@), key) == lookup(views(self.entries@.take(j as int)), key),
            decreases j,
        {
            let ghost pre = views(self.entries@.take(j as int));
            proof {
                assert(pre.len() == j);
                assert(pre.last() == self.entries@[j - 1]@);
                assert(pre.drop_last() =~= views(self.entries@.take(j - 1)));
            }
            if string_eq(&self.entries[j - 1].code, &clean) {
                let r = self.entries[j - 1].clone();
                proof {
                    assert(lookup(pre, key) == pre.last());
                }
                return r;
            }
            proof {
                assert(lookup(pre, key) == lookup(pre.drop_last(), key));
            }
            j = j - 1;
        }
        proof {
            assert(views(self.entries@.take(0)) =~= Seq::<StockV>::empty());
        }
        let r = StockInfo {
            code: clean,
            name: String::from_str("unknown"),
            sector: String::from_str("other"),
        };
        proof {
            assert(r@ =~= sentinel_v(key));
        }
        r
    }
}

/// The comma-separated fields of a row, split on every comma: one field per
/// comma-free run, with empty runs kept.
pub open spec fn split_commas(s: Seq<char>) -> Seq<Seq<char>>
    decreases s.len(),
{
    if s.len() == 0 {
        seq![Seq::<char>::empty()]
    } else if s[0] == ',' {
        seq![Seq::<char>::empty()] + split_commas(s.drop_first())
    } else {
        let rest = split_commas(s.drop_first());
        rest.update(0, seq![s[0]] + rest[0])
    }
}

proof fn lemma_split_len(s: Seq<char>)
    ensures
        split_commas(s).len() >= 1,
    decreases s.len(),
{
    if s.len() > 0 {
        lemma_split_len(s.drop_first());
    }
}

/// With the first comma of `s` sitting at `i` (or `i == s.len()` when there
/// is none), the split is the head run followed by the split of the rest.
proof fn lemma_split_at_comma(s: Seq<char>, i: int)
    requires
        0 <= i <= s.len(),
        forall|j: int| 0 <= j < i ==> s[j] != ',',
        i < s.len() ==> s[i as int] == ',',
    ensures
        i == s.len() ==> split_commas(s) == seq![s],
        i < s.len() ==> split_commas(s) == seq![s.take(i)] + split_commas(s.skip(i + 1)),
    decreases i,
{
    lemma_split_len(s);
    if i == 0 {
        if s.len() == 0 {
            assert(s =~= Seq::<char>::empty());
            assert(split_commas(s) =~= seq![s]);
        } else {
            assert(s[0] == ',');
            assert(s.take(0) =~= Seq::<char>::empty());
            assert(s.skip(1) =~= s.drop_first());
        }
    } else {
        assert(s[0] != ',');
        lemma_split_at_comma(s.drop_first(), i - 1);
        lemma_split_len(s.drop_first());
        let rest = split_commas(s.drop_first());
        if i == s.len() {
            assert(rest == seq![s.drop_first()]);
            assert(rest.update(0, seq![s[0]] + s.drop_first()) =~= seq![seq![s[0]] + s.drop_first()]);
            assert(seq![s[0]] + s.drop_first() =~= s);
        } else {
            assert(s.drop_first().skip(i) =~= s.skip(i + 1));
            assert(rest == seq![s.drop_first().take(i - 1)] + split_commas(s.skip(i + 1)));
            assert(seq![s[0]] + s.drop_first().take(i - 1) =~= s.take(i));
            assert(rest.update(0, seq![s[0]] + rest[0]) =~= seq![s.take(i)] + split_commas(
                s.skip(i + 1),
            ));
        }
    }
}

fn find_comma(s: &str) -> (i: usize)
    ensures
        i <= s@.len(),
        forall|j: int| 0 <= j < i ==> s@[j] != ',',
        i < s@.len() ==> s@[i as int] == ',',
{
    let n = s.unicode_len();
    let mut i: usize = 0;
    while i < n
        invariant
            i <= n,
            n == s@.len(),
            forall|j: int| 0 <= j < i ==> s@[j] != ',',
        decreases n - i,
    {
        if s.get_char(i) == ',' {
            return i;
        }
        i += 1;
    }
    i
}

/// Splits a row on its commas.
fn split_line(s: &str) -> (fields: Vec<String>)
    ensures
        fields@.map_values(|f: String| f@) == split_commas(s@),
        fields@.len() >= 1,
    decreases s@.len(),
{
    let n = s.unicode_len();
    let i = find_comma(s);
    proof {
        lemma_split_at_comma(s@, i as int);
    }
    if i == n {
        let mut out: Vec<String> = Vec::new();
        out.push(s.to_owned());
        proof {
            assert(out@.map_values(|f: String| f@) =~= seq![s@]);
        }
        out
    } else {
        let head = s.substring_char(0, i);
        let rest = s.substring_char(i + 1, n);
        proof {
            assert(head@ =~= s@.take(i as int));
            assert(rest@ =~= s@.skip(i + 1));
        }
        let mut out = split_line(rest);
        let ghost prevv = out@;
        let head_owned = head.to_owned();
        out.insert(0, head_owned);
        proof {
            assert(out@ =~= seq![head_owned] + prevv);
            assert(out@.map_values(|f: String| f@) =~= seq![s@.take(i as int)] + prevv.map_values(
                |f: String| f@,
            ));
        }
        out
    }
}

/// The whitespace that field trimming removes.
pub open spec fn is_ws(c: char) -> bool {
    c == ' ' || c == '\t' || c == '\r' || c == '\n' || c == '\u{b}' || c == '\u{c}'
}

pub open spec fn trim_start_spec(s: Seq<char>) -> Seq<char>
    decreases s.len(),
{
    if s.len() > 0 && is_ws(s[0]) {
        trim_start_spec(s.drop_first())
    } else {
        s
    }
}

pub open spec fn trim_end_spec(s: Seq<char>) -> Seq<char>
    decreases s.len(),
{
    if s.len() > 0 && is_ws(s.last()) {
        trim_end_spec(s.drop_last())
    } else {
        s
    }
}

/// A field with its leading and trailing whitespace removed.
pub open spec fn trim_spec(s: Seq<char>) -> Seq<char> {
    trim_end_spec(trim_start_spec(s))
}

proof fn lemma_trim_start_at(s: Seq<char>, a: int)
    requires
        0 <= a <= s.len(),
        forall|j: int| 0 <= j < a ==> is_ws(s[j]),
        a < s.len() ==> !is_ws(s[a as int]),
    ensures
        trim_start_spec(s) == s.skip(a),
    decreases a,
{
    if a == 0 {
        assert(s.skip(0) =~= s);
    } else {
        lemma_trim_start_at(s.drop_first(), a - 1);
        assert(s.drop_first().skip(a - 1) =~= s.skip(a));
    }
}

proof fn lemma_trim_end_at(s: Seq<char>, b: int)
    requires
        0 <= b <= s.len(),
        forall|j: int| b <= j < s.len() ==> is_ws(s[j]),
        b > 0 ==> !is_ws(s[b - 1]),
    ensures
        trim_end_spec(s) == s.take(b),
    decreases s.len(),
{
    if b == s.len() {
        if s.len() == 0 || !is_ws(s.last()) {
            assert(s.take(b) =~= s);
        } else {
            assert(!is_ws(s[b - 1]));
        }
    } else {
        lemma_trim_end_at(s.drop_last(), b);
        assert(s.drop_last().take(b) =~= s.take(b));
    }
}

fn is_ws_char(c: char) -> (r: bool)
    ensures
        r == is_ws(c),
{
    c == ' ' || c == '\t' || c == '\r' || c == '\n' || c == '\u{b}' || c == '\u{c}'
}

fn first_non_ws(s: &str) -> (a: usize)
    ensures
        a <= s@.len(),
        forall|j: int| 0 <= j < a ==> is_ws(s@[j]),
        a < s@.len() ==> !is_ws(s@[a as int]),
{
    let n = s.unicode_len();
    let mut a: usize = 0;
    while a < n
        invariant
            a <= n,
            n == s@.len(),
            forall|j: int| 0 <= j < a ==> is_ws(s@[j]),
        decreases n - a,
    {
        if !is_ws_char(s.get_char(a)) {
            return a;
        }
        a += 1;
    }
    a
}

fn last_non_ws(s: &str, a: usize) -> (b: usize)
    requires
        a <= s@.len(),
    ensures
        a <= b <= s@.len(),
        forall|j: int| b <= j < s@.len() ==> is_ws(s@[j]),
        b > a ==> !is_ws(s@[b - 1]),
{
    let n = s.unicode_len();
    let mut b: usize = n;
    while b > a
        invariant
            a <= b <= n,
            n == s@.len(),
            forall|j: int| b <= j < s@.len() ==> is_ws(s@[j]),
        decreases b,
    {
        if !is_ws_char(s.get_char(b - 1)) {
            return b;
        }
        b -= 1;
    }
    b
}

/// Removes leading and trailing whitespace from a field.
fn trim_str(s: &str) -> (r: String)
    ensures
        r@ == trim_spec(s@),
{
    let a = first_non_ws(s);
    let b = last_non_ws(s, a);
    proof {
        lemma_trim_start_at(s@, a as int);
        lemma_trim_end_at(s@.skip(a as int), b - a);
        assert(s@.skip(a as int).take(b - a) =~= s@.subrange(a as int, b as int));
    }
    let mid = s.substring_char(a, b);
    mid.to_owned()
}

/// What one CSV row contributes: its first three fields, trimmed, as a
/// record — or nothing when it has fewer than three fields.
pub open spec fn parse_line(s: Seq<char>) -> Option<StockV> {
    let fs = split_commas(s);
    if fs.len() >= 3 {
        Some(StockV { code: trim_spec(fs[0]), name: trim_spec(fs[1]), sector: trim_spec(fs[2]) })
    } else {
        None
    }
}

/// Reads one CSV row as a metadata record: the first three comma-separated
/// fields, trimmed, or `None` when the row is too short.
pub fn parse_csv_line(line: &str) -> (r: Option<StockInfo>)
    ensures
        r is Some <==> parse_line(line@) is Some,
        r matches Some(si) ==> parse_line(line@) == Some(si@),
{
    let fields = split_line(line);
    if fields.len() >= 3 {
        let si = StockInfo {
            code: trim_str(fields[0].as_str()),
            name: trim_str(fields[1].as_str()),
            sector: trim_str(fields[2].as_str()),
        };
        proof {
            let fs = split_commas(line@);
            assert(fields@.map_values(|f: String| f@)[0] == fs[0]);
            assert(fields@.map_values(|f: String| f@)[1] == fs[1]);
            assert(fields@.map_values(|f: String| f@)[2] == fs[2]);
            assert(si@ =~= parse_line(line@)->0);
        }
        Some(si)
    } else {
        None
    }
}

/// The records a sequence of rows loads, in order.
pub open spec fn parsed_records(lines: Seq<Seq<char>>) -> Seq<StockV>
    decreases lines.len(),
{
    if lines.len() == 0 {
        Seq::empty()
    } else {
        let rest = parsed_records(lines.drop_last());
        match parse_line(lines.last()) {
            Some(v) => rest.push(v),
            None => rest,
        }
    }
}

pub open spec fn line_views(lines: Seq<String>) -> Seq<Seq<char>> {
    lines.map_values(|l: String| l@)
}

/// The data rows of a reference file: everything after the header row.
pub open spec fn rows_after_header(lines: Seq<Seq<char>>) -> Seq<Seq<char>> {
    if lines.len() == 0 {
        Seq::empty()
    } else {
        lines.skip(1)
    }
}

impl StockInfoManager {
    /// Loads reference rows into the table: the first row is the header and
    /// is skipped, each later row adds its record (rows with fewer than
    /// three fields add nothing), and a code appearing twice keeps the later
    /// row, since lookups read the table back to front.
    pub fn load_from_rows(&mut self, lines: &Vec<String>)
        ensures
            final(self)@ == old(self)@ + parsed_records(rows_after_header(line_views(lines@))),
    {
        let ghost base = self@;
        if lines.len() == 0 {
            proof {
                assert(self@ =~= base + parsed_records(rows_after_header(line_views(lines@))));
            }
            return ;
        }
        let mut idx: usize = 1;
        proof {
            assert(line_views(lines@).subrange(1, 1) =~= Seq::<Seq<char>>::empty());
            assert(self@ =~= base + parsed_records(line_views(lines@).subrange(1, 1)));
        }
        while idx < lines.len()
            invariant
                1 <= idx <= lines@.len(),
                base == old(self)@,
                self@ == base + parsed_records(line_views(lines@).subrange(1, idx as int)),
            decreases lines@.len() - idx,
        {
            let ghost done = line_views(lines@).subrange(1, idx as int);
            match parse_csv_line(lines[idx].as_str()) {
                Some(si) => {
                    let ghost prev = self.entries@;
                    self.entries.push(si);
                    proof {
                        assert(views(self.entries@) =~= views(prev).push(si@));
                    }
                },
                None => {},
            }
            proof {
                let next = line_views(lines@).subrange(1, idx + 1);
                assert(next.drop_last() =~= done);
                assert(next.last() == lines@[idx as int]@);
                assert(parsed_records(next) == match parse_line(lines@[idx as int]@) {
                    Some(v) => parsed_records(done).push(v),
                    None => parsed_records(done),
                });
            }
            idx += 1;
        }
        proof {
            assert(line_views(lines@).subrange(1, lines@.len() as int) =~= rows_after_header(
                line_views(lines@),
            ));
        }
    }
}

impl Default for StockInfoManager {
    /// The empty table.
    fn default() -> (r: Self)
        ensures
            r@ == Seq::<StockV>::empty(),
    {
        StockInfoManager::new()
    }
}

/// String equality by contents.
fn string_eq(a: &String, b: &String) -> (r: bool)
    ensures
        r == (a@ == b@),
{
    a.eq(b)
}

/// Strips every leading `A` from a raw code.
pub fn strip_prefix(code: &str) -> (r: String)
    ensures
        r@ == strip_prefix_a(code@),
{
    let n = code.unicode_len();
    let mut k: usize = 0;
    while k < n
        invariant
            k <= n,
            n == code@.len(),
            forall|j: int| 0 <= j < k ==> code@[j] == 'A',
        decreases n - k,
    {
        if code.get_char(k) != 'A' {
            proof {
                lemma_strip_at(code@, k as int);
                assert(code@.subrange(k as int, n as int) =~= code@.skip(k as int));
            }
            let rest = code.substring_char(k, n);
            return rest.to_owned();
        }
        k += 1;
    }
    proof {
        lemma_strip_at(code@, n as int);
        assert(code@.subrange(n as int, n as int) =~= code@.skip(n as int));
    }
    let rest = code.substring_char(n, n);
    rest.to_owned()
}

} // verus!
