//! The library's laws: properties of the scanner and of the pairing step,
//! stated over the same spec functions the executable contracts use.

use vstd::prelude::*;

use crate::database::extraction;
use crate::database::pair_up_from;
use crate::database::Extraction;
use crate::scan::entry_provenance;
use crate::scan::lemma_done_frozen;
use crate::scan::lemma_scan_provenance;
use crate::scan::literals_of;
use crate::scan::scan_prefix;
use crate::scan::unescaped_quote;
use crate::text::count_newlines;
use crate::text::is_ws;
use crate::text::lead_ws;
use crate::text::lemma_trim_range;
use crate::text::lemma_ws_run_end_bounds;
use crate::text::lemma_ws_run_start_bounds;
use crate::text::trail_start;
use crate::text::trim_spec;

verus! {

/// The names of a literal buffer, taken two entries at a time and trimmed,
/// are pairwise distinct and absent from `acc`.
pub open spec fn names_fresh(bufs: Seq<(Seq<char>, nat)>, acc: Map<Seq<char>, Seq<char>>) -> bool {
    &&& forall|i: int, j: int|
        0 <= i < j < bufs.len() && i % 2 == 0 && j % 2 == 0 ==> trim_spec(
            (#[trigger] bufs[i]).0,
        ) != trim_spec((#[trigger] bufs[j]).0)
    &&& forall|i: int|
        0 <= i < bufs.len() && i % 2 == 0 ==> !acc.contains_key(trim_spec((#[trigger] bufs[i]).0))
}

proof fn lemma_pair_up_from_even(bufs: Seq<(Seq<char>, nat)>, acc: Map<Seq<char>, Seq<char>>)
    requires
        bufs.len() % 2 == 0,
        acc.dom().finite(),
        names_fresh(bufs, acc),
    ensures
        pair_up_from(bufs, acc) matches Extraction::Done { map } && {
            &&& map.dom().finite()
            &&& map.dom().len() == acc.dom().len() + bufs.len() / 2
            &&& forall|i: int|
                0 <= i && i + 1 < bufs.len() && i % 2 == 0 ==> map.contains_key(
                    trim_spec((#[trigger] bufs[i]).0),
                ) && map[trim_spec(bufs[i].0)] == trim_spec(bufs[i + 1].0)
            &&& forall|k: Seq<char>|
                #[trigger] acc.contains_key(k) ==> map.contains_key(k) && map[k] == acc[k]
        },
    decreases bufs.len(),
{
    if bufs.len() == 0 {
    } else {
        let name0 = trim_spec(bufs[0].0);
        let cmd0 = trim_spec(bufs[1].0);
        assert(!acc.contains_key(name0));
        let acc1 = acc.insert(name0, cmd0);
        let rest = bufs.subrange(2, bufs.len() as int);
        assert(forall|i: int| 0 <= i < rest.len() ==> #[trigger] rest[i] == bufs[i + 2]);
        assert forall|i: int, j: int|
            0 <= i < j < rest.len() && i % 2 == 0 && j % 2 == 0 implies trim_spec(
            (#[trigger] rest[i]).0,
        ) != trim_spec((#[trigger] rest[j]).0) by {
            assert(rest[i] == bufs[i + 2]);
            assert(rest[j] == bufs[j + 2]);
        }
        assert forall|i: int| 0 <= i < rest.len() && i % 2 == 0 implies !acc1.contains_key(
            trim_spec((#[trigger] rest[i]).0),
        ) by {
            assert(rest[i] == bufs[i + 2]);
            assert(trim_spec(bufs[i + 2].0) != name0);
            assert(!acc.contains_key(trim_spec(bufs[i + 2].0)));
        }
        vstd::set::axiom_set_insert_len(acc.dom(), name0);
        assert(acc1.dom() =~= acc.dom().insert(name0));
        lemma_pair_up_from_even(rest, acc1);
        assert(pair_up_from(bufs, acc) == pair_up_from(rest, acc1));
        match pair_up_from(rest, acc1) {
            Extraction::Done { map } => {
                assert(acc1.dom().len() == acc.dom().len() + 1);
                assert(rest.len() == bufs.len() - 2);
                assert(map.dom().len() == acc1.dom().len() + rest.len() / 2);
                assert((bufs.len() - 2) / 2 + 1 == bufs.len() / 2);
                assert forall|k: Seq<char>| #[trigger] acc.contains_key(k) implies map.contains_key(
                    k,
                ) && map[k] == acc[k] by {
                    assert(acc1.contains_key(k));
                    assert(acc1[k] == acc[k]);
                }
                assert forall|i: int|
                    0 <= i && i + 1 < bufs.len() && i % 2 == 0 implies map.contains_key(
                    trim_spec((#[trigger] bufs[i]).0),
                ) && map[trim_spec(bufs[i].0)] == trim_spec(bufs[i + 1].0) by {
                    if i == 0 {
                        assert(acc1.contains_key(name0));
                        assert(acc1[name0] == cmd0);
                    } else {
                        assert(rest[i - 2] == bufs[i]);
                        assert(rest[i - 1] == bufs[i + 1]);
                    }
                }
            },
            _ => {
                assert(false);
            },
        }
    }
}

/// Pairing property: when the target block holds an even number of literals
/// whose trimmed names are distinct, extraction succeeds and the mapping
/// holds exactly one entry per consecutive pair of literals, each the trim
/// of its two literals.
pub proof fn lemma_pairing_property(text: Seq<char>, key: Seq<char>)
    requires
        literals_of(text, key).len() % 2 == 0,
        names_fresh(literals_of(text, key), Map::<Seq<char>, Seq<char>>::empty()),
    ensures
        extraction(text, key) matches Extraction::Done { map } && {
            let bufs = literals_of(text, key);
            &&& map.dom().finite()
            &&& map.dom().len() == bufs.len() / 2
            &&& forall|i: int|
                0 <= i && i + 1 < bufs.len() && i % 2 == 0 ==> map.contains_key(
                    trim_spec((#[trigger] bufs[i]).0),
                ) && map[trim_spec(bufs[i].0)] == trim_spec(bufs[i + 1].0)
        },
{
    assert(Map::<Seq<char>, Seq<char>>::empty().dom() =~= Set::<Seq<char>>::empty());
    lemma_pair_up_from_even(literals_of(text, key), Map::empty());
}

/// Every diagnostic's line number is the recorded line of one of the
/// collected literals.
proof fn lemma_error_line_from_entry(bufs: Seq<(Seq<char>, nat)>, acc: Map<Seq<char>, Seq<char>>)
    ensures
        pair_up_from(bufs, acc) matches Extraction::MissingCommand { line } ==> exists|k: int|
            0 <= k < bufs.len() && line == (#[trigger] bufs[k]).1,
        pair_up_from(bufs, acc) matches Extraction::Duplicate { line } ==> exists|k: int|
            0 <= k < bufs.len() && line == (#[trigger] bufs[k]).1,
    decreases bufs.len(),
{
    if bufs.len() >= 2 && !acc.contains_key(trim_spec(bufs[0].0)) {
        let rest = bufs.subrange(2, bufs.len() as int);
        let acc1 = acc.insert(trim_spec(bufs[0].0), trim_spec(bufs[1].0));
        lemma_error_line_from_entry(rest, acc1);
        match pair_up_from(bufs, acc) {
            Extraction::MissingCommand { line } => {
                let k = choose|k: int| 0 <= k < rest.len() && line == (#[trigger] rest[k]).1;
                assert(rest[k] == bufs[k + 2]);
                assert(line == bufs[k + 2].1);
            },
            Extraction::Duplicate { line } => {
                let k = choose|k: int| 0 <= k < rest.len() && line == (#[trigger] rest[k]).1;
                assert(rest[k] == bufs[k + 2]);
                assert(line == bufs[k + 2].1);
            },
            _ => {},
        }
    }
}

/// Line-number accuracy: a failed extraction reports the 1-based line of an
/// opening quote in the source text, counted by the newlines before it.
pub proof fn lemma_line_number_accuracy(text: Seq<char>, key: Seq<char>)
    ensures
        diag_line(extraction(text, key)) matches Some(line) ==> exists|q: int|
            0 <= q < text.len() && #[trigger] unescaped_quote(text, q) && line == 1
                + count_newlines(text.take(q)),
{
    let bufs = literals_of(text, key);
    lemma_error_line_from_entry(bufs, Map::empty());
    lemma_scan_provenance(text, key, text.len() as int);
    match diag_line(extraction(text, key)) {
        Some(line) => {
            let k = choose|k: int| 0 <= k < bufs.len() && line == (#[trigger] bufs[k]).1;
            assert(entry_provenance(text, bufs[k], text.len() as int));
            let (o, c): (int, int) = choose|o: int, c: int|
                {
                    &&& 1 <= o <= c < text.len()
                    &&& unescaped_quote(text, o - 1)
                    &&& unescaped_quote(text, c)
                    &&& bufs[k].0 == #[trigger] text.subrange(o, c)
                    &&& bufs[k].1 == 1 + count_newlines(text.take(o - 1))
                };
            assert(unescaped_quote(text, o - 1));
            assert(0 <= o - 1 < text.len());
            assert(line == 1 + count_newlines(text.take(o - 1)));
        },
        None => {},
    }
}

/// The line a diagnostic carries, if the extraction failed.
pub open spec fn diag_line(e: Extraction) -> Option<nat> {
    match e {
        Extraction::Done { .. } => None,
        Extraction::MissingCommand { line } => Some(line),
        Extraction::Duplicate { line } => Some(line),
    }
}

/// Escaped-quote transparency: a quote preceded by a backslash changes the
/// scanner's state in no way at all; in particular it neither closes nor
/// opens a literal, so the escaped quote stays inside the literal's verbatim
/// text.
pub proof fn lemma_escaped_quote_transparent(text: Seq<char>, key: Seq<char>, n: int)
    requires
        1 <= n < text.len(),
        text[n] == '"',
        text[n - 1] == '\\',
    ensures
        scan_prefix(text, key, n + 1) == scan_prefix(text, key, n),
{
    assert(scan_prefix(text, key, n + 1) == crate::scan::scan_step(
        text,
        key,
        scan_prefix(text, key, n),
        n,
    ));
}

/// Block-boundary property: once the scan has seen the target block's
/// terminating unquoted `}`, nothing later in the text is captured; the
/// collected literals are exactly those at the moment the block ended.
pub proof fn lemma_block_boundary(text: Seq<char>, key: Seq<char>, n: int)
    requires
        0 <= n <= text.len(),
        scan_prefix(text, key, n).done,
    ensures
        literals_of(text, key) == scan_prefix(text, key, n).bufs,
{
    lemma_done_frozen(text, key, n, text.len() as int);
}

/// Trim property: trimming strips exactly the leading and trailing whitespace
/// and keeps the interior verbatim, internal whitespace included.
pub proof fn lemma_trim_properties(s: Seq<char>)
    ensures
        forall|j: int| 0 <= j < lead_ws(s) ==> is_ws(s[j]),
        forall|j: int| trail_start(s) <= j < s.len() ==> is_ws(s[j]),
        lead_ws(s) == s.len() ==> trim_spec(s) == Seq::<char>::empty(),
        lead_ws(s) < s.len() ==> trim_spec(s) == s.subrange(lead_ws(s), trail_start(s)),
        trim_spec(s).len() > 0 ==> !is_ws(trim_spec(s)[0]) && !is_ws(trim_spec(s).last()),
        forall|j: int|
            0 <= j < trim_spec(s).len() ==> #[trigger] trim_spec(s)[j] == s[lead_ws(s) + j],
{
    lemma_ws_run_end_bounds(s, 0);
    lemma_ws_run_start_bounds(s, s.len() as int);
    if lead_ws(s) < s.len() {
        lemma_trim_range(s);
    }
}

/// Idempotence: extraction is a pure function of the source text, so any two
/// successful extractions from identical text yield the same mapping.
pub proof fn lemma_extraction_deterministic(
    text: Seq<char>,
    key: Seq<char>,
    m1: Map<Seq<char>, Seq<char>>,
    m2: Map<Seq<char>, Seq<char>>,
)
    requires
        extraction(text, key) == (Extraction::Done { map: m1 }),
        extraction(text, key) == (Extraction::Done { map: m2 }),
    ensures
        m1 == m2,
{
}

} // verus!
