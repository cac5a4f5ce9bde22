//! The HTML page that summarizes scale receipts: one row per receipt, in
//! order of corpus size, pattern count, and worker count.
use vstd::prelude::*;
use vstd::string::{StrSliceExecFns, StringExecFns};

use crate::evidence::gates::{Evidence, GateError, Role};
use crate::evidence::receipts::{CacheDiagnosticsReceipt, ScaleScanReceipt};
use crate::parity::{digit, digit_char};

verus! {

/// The decimal digits of `n`, most significant first.
pub open spec fn decimal(n: nat) -> Seq<char>
    decreases n,
{
    if n < 10 {
        seq![digit_char(n as int)]
    } else {
        decimal(n / 10).push(digit_char((n % 10) as int))
    }
}

/// `value` hundredths written with two decimals.
pub open spec fn hundredths(value: nat) -> Seq<char> {
    decimal(value / 100) + seq!['.', digit_char(((value % 100) / 10) as int), digit_char((value % 10) as int)]
}

/// `value` tenths written with one decimal.
pub open spec fn tenths(value: nat) -> Seq<char> {
    decimal(value / 10) + seq!['.', digit_char((value % 10) as int)]
}

/// A byte count in mebibytes, with one decimal, rounded down.
pub open spec fn mib_tenths(bytes: nat) -> Seq<char> {
    tenths(bytes * 10 / 1048576)
}

/// The HTML text of one character.
pub open spec fn escaped_char(c: char) -> Seq<char> {
    if c == '&' {
        "&amp;"@
    } else if c == '<' {
        "&lt;"@
    } else if c == '>' {
        "&gt;"@
    } else if c == '"' {
        "&quot;"@
    } else {
        seq![c]
    }
}

/// `text` with `&`, `<`, `>` and `"` written as entities.
pub open spec fn escaped(text: Seq<char>) -> Seq<char>
    decreases text.len(),
{
    if text.len() == 0 {
        Seq::empty()
    } else {
        escaped(text.drop_last()) + escaped_char(text.last())
    }
}

/// Appends the decimal digits of `n`.
fn push_decimal(out: &mut String, n: u128)
    ensures
        final(out)@ == old(out)@ + decimal(n as nat),
    decreases n,
{
    if n >= 10 {
        push_decimal(out, n / 10);
    }
    out.append(digit((n % 10) as u32));
}

/// Appends `value` hundredths with two decimals.
fn push_hundredths(out: &mut String, value: u128)
    ensures
        final(out)@ == old(out)@ + hundredths(value as nat),
{
    push_decimal(out, value / 100);
    proof {
        reveal_strlit(".");
    }
    out.append(".");
    out.append(digit(((value % 100) / 10) as u32));
    out.append(digit((value % 10) as u32));
    proof {
        assert(out@ =~= old(out)@ + hundredths(value as nat));
    }
}

/// Appends `value` tenths with one decimal.
fn push_tenths(out: &mut String, value: u128)
    ensures
        final(out)@ == old(out)@ + tenths(value as nat),
{
    push_decimal(out, value / 10);
    proof {
        reveal_strlit(".");
    }
    out.append(".");
    out.append(digit((value % 10) as u32));
    proof {
        assert(out@ =~= old(out)@ + tenths(value as nat));
    }
}

/// Appends a byte count in mebibytes with one decimal.
fn push_mib(out: &mut String, bytes: usize)
    ensures
        final(out)@ == old(out)@ + mib_tenths(bytes as nat),
{
    push_tenths(out, bytes as u128 * 10 / 1048576);
}

/// Appends `text` with `&`, `<`, `>` and `"` written as entities.
fn push_escaped(out: &mut String, text: &str)
    ensures
        final(out)@ == old(out)@ + escaped(text@),
{
    let length = text.unicode_len();
    let ghost start = out@;
    let mut i: usize = 0;
    while i < length
        invariant
            length == text@.len(),
            i <= length,
            out@ == start + escaped(text@.take(i as int)),
        decreases length - i,
    {
        let c = text.get_char(i);
        let ghost before = out@;
        if c == '&' {
            out.append("&amp;");
        } else if c == '<' {
            out.append("&lt;");
        } else if c == '>' {
            out.append("&gt;");
        } else if c == '"' {
            out.append("&quot;");
        } else {
            out.append(text.substring_char(i, i + 1));
            proof {
                assert(text@.subrange(i as int, i + 1) =~= seq![c]);
            }
        }
        proof {
            assert(text@.take(i + 1).drop_last() =~= text@.take(i as int));
            assert(text@.take(i + 1).last() == c);
            assert(out@ =~= start + escaped(text@.take(i + 1)));
        }
        i = i + 1;
    }
    proof {
        assert(text@.take(length as int) =~= text@);
    }
}

/// From position `i` on, `a` sorts strictly before `b`, comparing characters
/// by code point (the order of their UTF-8 bytes).
pub open spec fn text_less_from(a: Seq<char>, b: Seq<char>, i: int) -> bool
    decreases a.len() - i,
{
    if i >= a.len() || i < 0 {
        i < b.len()
    } else if i >= b.len() {
        false
    } else if a[i] != b[i] {
        (a[i] as u32) < (b[i] as u32)
    } else {
        text_less_from(a, b, i + 1)
    }
}

/// `a` sorts strictly before `b`.
pub open spec fn text_less(a: Seq<char>, b: Seq<char>) -> bool {
    text_less_from(a, b, 0)
}

/// Whether `a` sorts strictly before `b`.
fn is_text_less(a: &str, b: &str) -> (less: bool)
    ensures
        less == text_less(a@, b@),
{
    let a_len = a.unicode_len();
    let b_len = b.unicode_len();
    let mut i: usize = 0;
    while i < a_len && i < b_len
        invariant
            a_len == a@.len(),
            b_len == b@.len(),
            i <= a_len,
            i <= b_len,
            text_less(a@, b@) == text_less_from(a@, b@, i as int),
        decreases a_len - i,
    {
        let x = a.get_char(i);
        let y = b.get_char(i);
        if x != y {
            return (x as u32) < (y as u32);
        }
        i = i + 1;
    }
    i < b_len
}

/// The measurement time of the first `k` receipts that sorts first.
pub open spec fn earliest(receipts: Seq<ScaleScanReceipt>, k: int) -> Option<Seq<char>>
    decreases k,
{
    if k <= 0 {
        None
    } else {
        let prior = earliest(receipts, k - 1);
        match receipts[k - 1].measured_at_utc {
            None => prior,
            Some(time) => match prior {
                None => Some(time@),
                Some(best) => if text_less(time@, best) {
                    Some(time@)
                } else {
                    Some(best)
                },
            },
        }
    }
}

/// The measurement time of the first `k` receipts that sorts last.
pub open spec fn latest(receipts: Seq<ScaleScanReceipt>, k: int) -> Option<Seq<char>>
    decreases k,
{
    if k <= 0 {
        None
    } else {
        let prior = latest(receipts, k - 1);
        match receipts[k - 1].measured_at_utc {
            None => prior,
            Some(time) => match prior {
                None => Some(time@),
                Some(best) => if text_less(best, time@) {
                    Some(time@)
                } else {
                    Some(best)
                },
            },
        }
    }
}

/// How many of the first `k` receipts record a measurement time.
pub open spec fn recorded(receipts: Seq<ScaleScanReceipt>, k: int) -> nat
    decreases k,
{
    if k <= 0 {
        0
    } else {
        recorded(receipts, k - 1) + if receipts[k - 1].measured_at_utc is Some {
            1nat
        } else {
            0nat
        }
    }
}

/// The measurement window: the earliest and latest recorded times.
pub open spec fn measurement_window(receipts: Seq<ScaleScanReceipt>) -> Seq<char> {
    let n = receipts.len() as int;
    match (earliest(receipts, n), latest(receipts, n)) {
        (Some(first), Some(last)) => if first == last {
            escaped(first)
        } else {
            escaped(first) + " to "@ + escaped(last)
        },
        _ => "not recorded in retained receipts"@,
    }
}

/// A note on how many receipts record their time, when some do not.
pub open spec fn timestamp_coverage(receipts: Seq<ScaleScanReceipt>) -> Seq<char> {
    let n = receipts.len() as int;
    if recorded(receipts, n) == n {
        Seq::empty()
    } else {
        " (timestamps recorded for "@ + decimal(recorded(receipts, n)) + " of "@ + decimal(n as nat)
            + " receipts)"@
    }
}

/// Appends the measurement window and its coverage note.
fn push_window(out: &mut String, receipts: &Vec<&ScaleScanReceipt>)
    ensures
        final(out)@ == old(out)@ + measurement_window(receipts@.map_values(|r: &ScaleScanReceipt| *r))
            + timestamp_coverage(receipts@.map_values(|r: &ScaleScanReceipt| *r)),
{
    let ghost rs = receipts@.map_values(|r: &ScaleScanReceipt| *r);
    let mut first: Option<&String> = None;
    let mut last: Option<&String> = None;
    let mut count: usize = 0;
    let mut k: usize = 0;
    while k < receipts.len()
        invariant
            rs == receipts@.map_values(|r: &ScaleScanReceipt| *r),
            k <= receipts@.len(),
            count == recorded(rs, k as int),
            count <= k,
            earliest(rs, k as int) == match first {
                Some(t) => Some(t@),
                None => None::<Seq<char>>,
            },
            latest(rs, k as int) == match last {
                Some(t) => Some(t@),
                None => None::<Seq<char>>,
            },
        decreases receipts@.len() - k,
    {
        let receipt = receipts[k];
        if let Some(time) = &receipt.measured_at_utc {
            first = match first {
                None => Some(time),
                Some(best) => if is_text_less(time.as_str(), best.as_str()) {
                    Some(time)
                } else {
                    Some(best)
                },
            };
            last = match last {
                None => Some(time),
                Some(best) => if is_text_less(best.as_str(), time.as_str()) {
                    Some(time)
                } else {
                    Some(best)
                },
            };
            count = count + 1;
        }
        k = k + 1;
    }
    let ghost before = out@;
    assert(rs.len() == receipts@.len());
    match (first, last) {
        (Some(first), Some(last)) => {
            if *first == *last {
                push_escaped(out, first.as_str());
                proof {
                    assert(first@ == last@);
                    assert(out@ == before + measurement_window(rs));
                }
            } else {
                push_escaped(out, first.as_str());
                out.append(" to ");
                push_escaped(out, last.as_str());
                proof {
                    assert(out@ =~= before + (escaped(first@) + " to "@ + escaped(last@)));
                    assert(out@ == before + measurement_window(rs));
                }
            }
        },
        _ => {
            out.append("not recorded in retained receipts");
            proof {
                assert(out@ == before + measurement_window(rs));
            }
        },
    }
    let ghost middle = out@;
    assert(middle == before + measurement_window(rs));
    if count != receipts.len() {
        out.append(" (timestamps recorded for ");
        push_decimal(out, count as u128);
        out.append(" of ");
        push_decimal(out, receipts.len() as u128);
        out.append(" receipts)");
        proof {
            assert(out@ =~= middle + timestamp_coverage(rs));
        }
    } else {
        proof {
            assert(out@ =~= middle + timestamp_coverage(rs));
        }
    }
}

/// `a` comes before `b` by corpus size, then pattern count, then worker count.
pub open spec fn key_less(a: ScaleScanReceipt, b: ScaleScanReceipt) -> bool {
    a.corpus_bytes < b.corpus_bytes || (a.corpus_bytes == b.corpus_bytes && (a.pattern_count
        < b.pattern_count || (a.pattern_count == b.pattern_count && a.worker_count < b.worker_count)))
}

/// `a` and `b` have the same corpus size, pattern count, and worker count.
pub open spec fn same_key(a: ScaleScanReceipt, b: ScaleScanReceipt) -> bool {
    a.corpus_bytes == b.corpus_bytes && a.pattern_count == b.pattern_count && a.worker_count
        == b.worker_count
}

/// `order` lists every receipt once, sorted by key; receipts with equal keys
/// keep their given order.
pub open spec fn is_report_order(receipts: Seq<ScaleScanReceipt>, order: Seq<int>) -> bool {
    &&& order.len() == receipts.len()
    &&& forall|i: int| 0 <= i < order.len() ==> 0 <= #[trigger] order[i] < receipts.len()
    &&& forall|i: int, j: int| 0 <= i < j < order.len() ==> #[trigger] order[i] != #[trigger] order[j]
    &&& forall|i: int, j: int|
        0 <= i < j < order.len() ==> key_less(receipts[#[trigger] order[i]], receipts[#[trigger] order[j]])
            || (same_key(receipts[order[i]], receipts[order[j]]) && order[i] < order[j])
}

fn is_key_less(a: &ScaleScanReceipt, b: &ScaleScanReceipt) -> (less: bool)
    ensures
        less == key_less(*a, *b),
{
    a.corpus_bytes < b.corpus_bytes || (a.corpus_bytes == b.corpus_bytes && (a.pattern_count
        < b.pattern_count || (a.pattern_count == b.pattern_count && a.worker_count < b.worker_count)))
}

/// The order of the report's rows: a stable sort of the receipts by key.
fn report_order(receipts: &[ScaleScanReceipt]) -> (order: Vec<usize>)
    ensures
        is_report_order(receipts@, order@.map_values(|i: usize| i as int)),
{
    let mut order: Vec<usize> = Vec::new();
    let mut k: usize = 0;
    while k < receipts.len()
        invariant
            k <= receipts@.len(),
            order@.len() == k,
            forall|i: int| 0 <= i < order@.len() ==> #[trigger] order@[i] < k,
            forall|i: int, j: int| 0 <= i < j < order@.len() ==> #[trigger] order@[i] != #[trigger] order@[j],
            forall|i: int, j: int|
                0 <= i < j < order@.len() ==> key_less(
                    receipts@[#[trigger] order@[i] as int],
                    receipts@[#[trigger] order@[j] as int],
                ) || (same_key(receipts@[order@[i] as int], receipts@[order@[j] as int]) && order@[i]
                    < order@[j]),
        decreases receipts@.len() - k,
    {
        let ghost current = receipts@[k as int];
        let mut p: usize = 0;
        while p < order.len() && !is_key_less(&receipts[k], &receipts[order[p]])
            invariant
                k < receipts@.len(),
                p <= order@.len(),
                current == receipts@[k as int],
                forall|i: int| 0 <= i < order@.len() ==> #[trigger] order@[i] < k,
                forall|i: int| 0 <= i < p ==> !key_less(current, #[trigger] receipts@[order@[i] as int]),
            decreases order@.len() - p,
        {
            p = p + 1;
        }
        let ghost old_order = order@;
        proof {
            assert forall|j: int| p <= j < old_order.len() implies key_less(current, #[trigger] receipts@[old_order[j] as int]) by {
                let first = receipts@[old_order[p as int] as int];
                if j > p {
                    assert(key_less(first, receipts@[old_order[j] as int]) || same_key(first, receipts@[old_order[j] as int]));
                }
            }
        }
        order.insert(p, k);
        proof {
            assert forall|i: int, j: int| 0 <= i < j < order@.len() implies key_less(
                receipts@[#[trigger] order@[i] as int],
                receipts@[#[trigger] order@[j] as int],
            ) || (same_key(receipts@[order@[i] as int], receipts@[order@[j] as int]) && order@[i]
                < order@[j]) by {
                if i < p && j < p {
                    assert(order@[i] == old_order[i] && order@[j] == old_order[j]);
                } else if i < p && j == p {
                    assert(order@[i] == old_order[i]);
                    assert(!key_less(current, receipts@[old_order[i] as int]));
                } else if i < p {
                    assert(order@[i] == old_order[i] && order@[j] == old_order[j - 1]);
                } else if i == p {
                    assert(order@[j] == old_order[j - 1]);
                } else {
                    assert(order@[i] == old_order[i - 1] && order@[j] == old_order[j - 1]);
                }
            }
            assert forall|i: int, j: int| 0 <= i < j < order@.len() implies #[trigger] order@[i] != #[trigger] order@[j] by {
                if i < p && j < p {
                    assert(order@[i] == old_order[i] && order@[j] == old_order[j]);
                } else if i < p && j == p {
                    assert(order@[i] == old_order[i]);
                } else if i < p {
                    assert(order@[i] == old_order[i] && order@[j] == old_order[j - 1]);
                } else if i == p {
                    assert(order@[j] == old_order[j - 1]);
                } else {
                    assert(order@[i] == old_order[i - 1] && order@[j] == old_order[j - 1]);
                }
            }
            assert forall|i: int| 0 <= i < order@.len() implies #[trigger] order@[i] < k + 1 by {
                if i < p {
                    assert(order@[i] == old_order[i]);
                } else if i > p {
                    assert(order@[i] == old_order[i - 1]);
                }
            }
        }
        k = k + 1;
    }
    order
}

/// The page up to the measurement window.
pub const PAGE_HEAD: &'static str = "<!doctype html><html lang=\"en\"><head><meta charset=\"utf-8\"><meta name=\"viewport\" content=\"width=device-width,initial-scale=1\"><title>rustmatch benchmark results</title><style>:root{--ink:#13211c;--muted:#5c6862;--paper:#f5f1e8;--green:#0f654b;--line:#c9c2b4}*{box-sizing:border-box}body{margin:0;background:linear-gradient(145deg,#dce8dd,#f5f1e8 42%);color:var(--ink);font:16px/1.45 ui-monospace,SFMono-Regular,Menlo,monospace}main{max-width:2250px;margin:4rem auto;padding:0 2rem}h1{font:700 clamp(2rem,5vw,4.8rem)/.95 Georgia,serif;max-width:12ch;margin:0 0 1rem}.lede{max-width:72ch;color:var(--muted);margin-bottom:1rem}.measurement-window{display:inline-block;margin:0 0 2rem;padding:.55rem .8rem;border:1px solid rgba(15,101,75,.25);background:rgba(255,255,255,.62)}.card{background:rgba(255,255,255,.82);border:1px solid rgba(19,33,28,.15);box-shadow:0 24px 70px rgba(20,40,30,.12);overflow:auto}table{border-collapse:collapse;width:100%;min-width:2250px}th,td{padding:.9rem 1rem;border-bottom:1px solid var(--line);text-align:right;white-space:nowrap}th{position:sticky;top:0;background:#173c31;color:white;font-size:.78rem;letter-spacing:.04em;text-transform:uppercase}th:first-child,th:nth-child(2),th:nth-child(3),td:first-child,td:nth-child(2),td:nth-child(3){text-align:left}tbody tr:hover{background:#eef6ed}.pass{background:#ccebd8;color:#084b35;padding:.2rem .55rem;border-radius:999px;font-weight:700}.note{color:var(--muted);margin-top:1.4rem;font-size:.86rem}code{overflow-wrap:anywhere}@media(max-width:700px){main{margin:2rem auto;padding:0 1rem}}</style></head><body><main><h1>rustmatch benchmark receipts</h1><p class=\"lede\">Exploratory Wuthering Heights literal-pattern scale results. Each timed scan follows a full cache-scrub pass; compilation and scanning are reported separately. These are engineering receipts, not cross-engine claims.</p><p class=\"measurement-window\"><strong>Measurement window (UTC):</strong> ";

/// The table head, after the measurement window.
pub const PAGE_TABLE: &'static str = "</p><div class=\"card\"><table><thead><tr><th>Revision</th><th>Measured UTC</th><th>Runner</th><th>Patterns</th><th>Requested workers</th><th>Partitions</th><th>Spawned workers</th><th>Database</th><th>Prefilter</th><th>Candidate bitmap</th><th>Cache tables</th><th>Buffered events</th><th>Corpus</th><th>Cache scrub</th><th>Events</th><th>Cache states</th><th>Fallbacks</th><th>Start path</th><th>Starts verified</th><th>Compile median</th><th>Scan median</th><th>Throughput</th><th>Correctness</th></tr></thead><tbody>";

/// The text after the table, before the sources.
pub const PAGE_NOTE: &'static str = "</tbody></table></div><p class=\"note\">";

/// The end of the page.
pub const PAGE_TAIL: &'static str = "<br>Each receipt records its own UTC measurement timestamp, warm-up count, and measured-iteration count. Literal patterns are the lexicographically first distinct non-empty lines from the source list, escaped before compilation. Memory columns report explicitly accounted bytes, not allocator overhead.</p></main></body></html>";

/// `value` capped at the largest `u128`.
pub open spec fn cap_u128(value: int) -> int {
    if value > u128::MAX {
        u128::MAX as int
    } else {
        value
    }
}

/// Scan throughput in hundredths of a mebibyte per second.
pub open spec fn throughput_hundredths(r: ScaleScanReceipt) -> nat {
    (cap_u128(cap_u128(r.corpus_bytes * 1_000_000_000) * 100) / (r.median_scan_ns as int) / 1048576) as nat
}

fn saturating_mul_u128(a: u128, b: u128) -> (product: u128)
    ensures
        product == cap_u128(a * b),
{
    match a.checked_mul(b) {
        Some(product) => product,
        None => u128::MAX,
    }
}

fn throughput(r: &ScaleScanReceipt) -> (value: u128)
    requires
        r.median_scan_ns > 0,
    ensures
        value == throughput_hundredths(*r),
{
    let scaled = saturating_mul_u128(saturating_mul_u128(r.corpus_bytes as u128, 1_000_000_000), 100);
    scaled / r.median_scan_ns / 1048576
}

/// One table row of the report.
pub open spec fn report_row(r: ScaleScanReceipt) -> Seq<char> {
    Seq::<char>::empty() + "<tr><td>"@
        + escaped(r.revision@)
        + "</td><td>"@
        + (match r.measured_at_utc {
        Some(t) => escaped(t@),
        None => "not recorded"@,
    })
        + "</td><td>"@
        + escaped(r.runner@)
        + "</td><td>"@
        + decimal(r.pattern_count as nat)
        + "</td><td>"@
        + decimal(r.worker_count as nat)
        + "</td><td>"@
        + (match r.cache_diagnostics {
        Some(d) => decimal(d.partition_count as nat),
        None => "n/a"@,
    })
        + "</td><td>"@
        + (match r.cache_diagnostics {
        Some(d) => decimal(d.spawned_workers as nat),
        None => "n/a"@,
    })
        + "</td><td>"@
        + (match r.cache_diagnostics {
        Some(d) => mib_tenths(d.database_retained_bytes as nat),
        None => "n/a"@,
    })
        + " MiB</td><td>"@
        + (match r.cache_diagnostics {
        Some(d) => mib_tenths(d.prefilter_retained_bytes as nat),
        None => "n/a"@,
    })
        + " MiB</td><td>"@
        + (match r.cache_diagnostics {
        Some(d) => mib_tenths(d.prefilter_candidate_bytes as nat),
        None => "n/a"@,
    })
        + " MiB</td><td>"@
        + (match r.cache_diagnostics {
        Some(d) => mib_tenths(d.cache_table_bytes as nat),
        None => "n/a"@,
    })
        + " MiB</td><td>"@
        + (match r.cache_diagnostics {
        Some(d) => mib_tenths(d.buffered_event_bytes as nat),
        None => "n/a"@,
    })
        + " MiB</td><td>"@
        + mib_tenths(r.corpus_bytes as nat)
        + " MiB</td><td>"@
        + mib_tenths(r.cache_scrub_bytes as nat)
        + " MiB</td><td>"@
        + decimal(r.event_count as nat)
        + "</td><td>"@
        + (match r.cache_diagnostics {
        Some(d) => decimal(d.cache_states as nat),
        None => "n/a"@,
    })
        + "</td><td>"@
        + (match r.cache_diagnostics {
        Some(d) => decimal(d.fallback_transitions as nat),
        None => "n/a"@,
    })
        + "</td><td>"@
        + (match r.cache_diagnostics {
        Some(d) => escaped(d.prefilter_path@),
        None => "n/a"@,
    })
        + "</td><td>"@
        + (match r.cache_diagnostics {
        Some(d) => decimal(d.prefilter_starts_scanned as nat),
        None => "n/a"@,
    })
        + "</td><td>"@
        + hundredths((r.median_compile_ns / 10000) as nat)
        + " ms</td><td>"@
        + hundredths((r.median_scan_ns / 10000) as nat)
        + " ms</td><td>"@
        + hundredths(throughput_hundredths(r))
        + " MiB/s</td><td><span class=\"pass\">pass</span></td></tr>"@
}

/// Appends the table row of `r`.
fn push_row(out: &mut String, r: &ScaleScanReceipt)
    requires
        r.median_scan_ns > 0,
    ensures
        final(out)@ == old(out)@ + report_row(*r),
{
    let mut row = String::new();
    row.append("<tr><td>");
    push_escaped(&mut row, r.revision.as_str());
    row.append("</td><td>");
    match &r.measured_at_utc {
        Some(t) => push_escaped(&mut row, t.as_str()),
        None => row.append("not recorded"),
    }
    row.append("</td><td>");
    push_escaped(&mut row, r.runner.as_str());
    row.append("</td><td>");
    push_decimal(&mut row, r.pattern_count as u128);
    row.append("</td><td>");
    push_decimal(&mut row, r.worker_count as u128);
    row.append("</td><td>");
    match &r.cache_diagnostics {
        Some(d) => push_decimal(&mut row, d.partition_count as u128),
        None => row.append("n/a"),
    }
    row.append("</td><td>");
    match &r.cache_diagnostics {
        Some(d) => push_decimal(&mut row, d.spawned_workers as u128),
        None => row.append("n/a"),
    }
    row.append("</td><td>");
    match &r.cache_diagnostics {
        Some(d) => push_mib(&mut row, d.database_retained_bytes),
        None => row.append("n/a"),
    }
    row.append(" MiB</td><td>");
    match &r.cache_diagnostics {
        Some(d) => push_mib(&mut row, d.prefilter_retained_bytes),
        None => row.append("n/a"),
    }
    row.append(" MiB</td><td>");
    match &r.cache_diagnostics {
        Some(d) => push_mib(&mut row, d.prefilter_candidate_bytes),
        None => row.append("n/a"),
    }
    row.append(" MiB</td><td>");
    match &r.cache_diagnostics {
        Some(d) => push_mib(&mut row, d.cache_table_bytes),
        None => row.append("n/a"),
    }
    row.append(" MiB</td><td>");
    match &r.cache_diagnostics {
        Some(d) => push_mib(&mut row, d.buffered_event_bytes),
        None => row.append("n/a"),
    }
    row.append(" MiB</td><td>");
    push_mib(&mut row, r.corpus_bytes);
    row.append(" MiB</td><td>");
    push_mib(&mut row, r.cache_scrub_bytes);
    row.append(" MiB</td><td>");
    push_decimal(&mut row, r.event_count as u128);
    row.append("</td><td>");
    match &r.cache_diagnostics {
        Some(d) => push_decimal(&mut row, d.cache_states as u128),
        None => row.append("n/a"),
    }
    row.append("</td><td>");
    match &r.cache_diagnostics {
        Some(d) => push_decimal(&mut row, d.fallback_transitions as u128),
        None => row.append("n/a"),
    }
    row.append("</td><td>");
    match &r.cache_diagnostics {
        Some(d) => push_escaped(&mut row, d.prefilter_path.as_str()),
        None => row.append("n/a"),
    }
    row.append("</td><td>");
    match &r.cache_diagnostics {
        Some(d) => push_decimal(&mut row, d.prefilter_starts_scanned as u128),
        None => row.append("n/a"),
    }
    row.append("</td><td>");
    push_hundredths(&mut row, r.median_compile_ns / 10000);
    row.append(" ms</td><td>");
    push_hundredths(&mut row, r.median_scan_ns / 10000);
    row.append(" ms</td><td>");
    push_hundredths(&mut row, throughput(r));
    row.append(" MiB/s</td><td><span class=\"pass\">pass</span></td></tr>");
    out.append(row.as_str());
}

/// The rows of the first `k` receipts.
pub open spec fn report_rows(receipts: Seq<ScaleScanReceipt>, k: int) -> Seq<char>
    decreases k,
{
    if k <= 0 {
        Seq::empty()
    } else {
        report_rows(receipts, k - 1) + report_row(receipts[k - 1])
    }
}

/// The sources named under the table: those of the first receipt.
pub open spec fn provenance(receipts: Seq<ScaleScanReceipt>) -> Seq<char> {
    if receipts.len() == 0 {
        Seq::empty()
    } else {
        let r = receipts[0];
        Seq::<char>::empty() + "Pattern source: <code>"@ + escaped(r.pattern_source@) + "</code> ("@
            + escaped(r.pattern_source_digest@) + ")<br>Corpus source: <code>"@ + escaped(r.corpus_source@)
            + "</code> ("@ + escaped(r.corpus_source_digest@) + ")"@
    }
}

/// The whole page for receipts already in row order.
pub open spec fn report_page(receipts: Seq<ScaleScanReceipt>) -> Seq<char> {
    Seq::<char>::empty() + PAGE_HEAD@ + measurement_window(receipts) + timestamp_coverage(receipts) + PAGE_TABLE@
        + report_rows(receipts, receipts.len() as int) + PAGE_NOTE@ + provenance(receipts) + PAGE_TAIL@
}

/// Renders scale receipts as one HTML page: a row per receipt, ordered by
/// corpus size, then pattern count, then worker count, receipts with equal
/// keys in their given order; the measurement window spans the recorded
/// times, and the sources are those of the first row. A receipt with invalid
/// metadata refuses the whole set.
pub fn render_scale_report_html(receipts: &[ScaleScanReceipt]) -> (html: Result<String, GateError>)
    ensures
        html is Err <==> exists|i: int| 0 <= i < receipts@.len() && !(#[trigger] receipts@[i]).valid_spec(),
        html is Err ==> html == Err::<String, GateError>(
            GateError::InvalidMetadata { evidence: Evidence::WutheringTripwire, role: Role::Candidate },
        ),
        html matches Ok(page) ==> exists|order: Seq<int>|
            is_report_order(receipts@, order) && page@ == report_page(
                order.map_values(|i: int| receipts@[i]),
            ),
{
    let mut k: usize = 0;
    while k < receipts.len()
        invariant
            k <= receipts@.len(),
            forall|i: int| 0 <= i < k ==> (#[trigger] receipts@[i]).valid_spec(),
        decreases receipts@.len() - k,
    {
        if !receipts[k].validate() {
            return Err(GateError::InvalidMetadata { evidence: Evidence::WutheringTripwire, role: Role::Candidate });
        }
        k = k + 1;
    }
    let order = report_order(receipts);
    let ghost positions = order@.map_values(|i: usize| i as int);
    let ghost rows_in_order = positions.map_values(|i: int| receipts@[i]);
    let mut sorted: Vec<&ScaleScanReceipt> = Vec::new();
    let mut j: usize = 0;
    while j < order.len()
        invariant
            positions == order@.map_values(|i: usize| i as int),
            rows_in_order == positions.map_values(|i: int| receipts@[i]),
            is_report_order(receipts@, positions),
            j <= order@.len(),
            sorted@.len() == j,
            forall|i: int| 0 <= i < j ==> *(#[trigger] sorted@[i]) == rows_in_order[i],
        decreases order@.len() - j,
    {
        assert(positions[j as int] == order@[j as int] as int);
        sorted.push(&receipts[order[j]]);
        j = j + 1;
    }
    let ghost rs = sorted@.map_values(|r: &ScaleScanReceipt| *r);
    assert(rs =~= rows_in_order);
    let mut page = String::new();
    page.append(PAGE_HEAD);
    push_window(&mut page, &sorted);
    page.append(PAGE_TABLE);
    let mut rows = String::new();
    let mut m: usize = 0;
    while m < sorted.len()
        invariant
            rs == sorted@.map_values(|r: &ScaleScanReceipt| *r),
            forall|i: int| 0 <= i < receipts@.len() ==> (#[trigger] receipts@[i]).valid_spec(),
            rs == rows_in_order,
            rows_in_order == positions.map_values(|i: int| receipts@[i]),
            is_report_order(receipts@, positions),
            m <= sorted@.len(),
            rows@ == report_rows(rs, m as int),
        decreases sorted@.len() - m,
    {
        proof {
            assert(rs.len() == sorted@.len());
            assert(positions.len() == receipts@.len());
            assert(0 <= positions[m as int] < receipts@.len());
            assert(rs[m as int] == receipts@[positions[m as int]]);
            assert(receipts@[positions[m as int]].valid_spec());
            assert(*sorted@[m as int] == rs[m as int]);
        }
        push_row(&mut rows, sorted[m]);
        proof {
            assert(report_rows(rs, m + 1) == report_rows(rs, m as int) + report_row(rs[m as int]));
        }
        m = m + 1;
    }
    page.append(rows.as_str());
    page.append(PAGE_NOTE);
    let ghost before_sources = page@;
    if sorted.len() > 0 {
        let first = sorted[0];
        let mut sources = String::new();
        sources.append("Pattern source: <code>");
        push_escaped(&mut sources, first.pattern_source.as_str());
        sources.append("</code> (");
        push_escaped(&mut sources, first.pattern_source_digest.as_str());
        sources.append(")<br>Corpus source: <code>");
        push_escaped(&mut sources, first.corpus_source.as_str());
        sources.append("</code> (");
        push_escaped(&mut sources, first.corpus_source_digest.as_str());
        sources.append(")");
        page.append(sources.as_str());
    } else {
        proof {
            assert(page@ =~= before_sources + provenance(rs));
        }
    }
    page.append(PAGE_TAIL);
    proof {
        assert(page@ == report_page(rows_in_order));
    }
    Ok(page)
}

} // verus!
