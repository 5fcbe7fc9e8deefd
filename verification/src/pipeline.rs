//! The pipeline driver: walks the input buffer record by record, feeds the
//! station table, and drains it into summaries sorted by key.

use vstd::prelude::*;
use crate::aggregation::{
    lemma_table_of_bounds, lemma_table_of_step, table_of, AggregateModel,
};
use crate::error::{BrcError, BrcResult};
use crate::memops::{find_in_window, window};
use crate::records::{
    is_line_end_at, is_sep_at, is_ascii_digit, key_of, lemma_input_step, lemma_sep_unique,
    lemma_valid_record_len, line_end_of, parse_value, records_of, sep_of, temp_of, valid_input,
    valid_record, valid_value,
};
use crate::station_map::{
    new_station_map, station_map_contents, StationMap, StationMapOptions, StationNameKey,
    INLINE_STRING_SIZE,
};
use crate::temperature_summary::TemperatureSummary;

verus! {

/// Strict byte-wise lexicographic order on byte strings: a proper prefix
/// precedes its extensions, and otherwise the first differing byte
/// decides.
pub open spec fn lex_lt(a: Seq<u8>, b: Seq<u8>) -> bool
    decreases a.len(),
{
    if b.len() == 0 {
        false
    } else if a.len() == 0 {
        true
    } else if a[0] < b[0] {
        true
    } else if a[0] > b[0] {
        false
    } else {
        lex_lt(a.skip(1), b.skip(1))
    }
}

/// The order is total: two byte strings neither of which precedes the
/// other are equal.
pub proof fn lemma_lex_total(a: Seq<u8>, b: Seq<u8>)
    ensures
        !lex_lt(a, b) && !lex_lt(b, a) ==> a == b,
    decreases a.len(),
{
    if a.len() == 0 && b.len() == 0 {
        assert(a =~= b);
    } else if a.len() > 0 && b.len() > 0 && a[0] == b[0] {
        lemma_lex_total(a.skip(1), b.skip(1));
        if !lex_lt(a, b) && !lex_lt(b, a) {
            assert(a.skip(1) == b.skip(1));
            assert(a.len() == b.len());
            assert forall|i: int| 0 <= i < a.len() implies a[i] == b[i] by {
                if i > 0 {
                    assert(a.skip(1)[i - 1] == b.skip(1)[i - 1]);
                }
            }
            assert(a =~= b);
        }
    }
}

/// The order is irreflexive, so a strictly sorted sequence of names never
/// repeats one.
pub proof fn lemma_lex_irrefl(a: Seq<u8>)
    ensures
        !lex_lt(a, a),
    decreases a.len(),
{
    if a.len() > 0 {
        lemma_lex_irrefl(a.skip(1));
    }
}

/// The order is transitive.
pub proof fn lemma_lex_trans(a: Seq<u8>, b: Seq<u8>, c: Seq<u8>)
    requires
        lex_lt(a, b),
        lex_lt(b, c),
    ensures
        lex_lt(a, c),
    decreases a.len(),
{
    if b.len() == 0 || c.len() == 0 || a.len() == 0 {
        // lex_lt(a, b) forces b nonempty, lex_lt(b, c) forces c nonempty,
        // and an empty a precedes any nonempty c.
    } else if a[0] == b[0] && b[0] == c[0] {
        lemma_lex_trans(a.skip(1), b.skip(1), c.skip(1));
    }
}

/// Compares two byte strings in the lexicographic order.
pub fn lex_less(a: &[u8], b: &[u8]) -> (r: bool)
    ensures
        r == lex_lt(a@, b@),
{
    proof {
        assert(a@.skip(0) =~= a@);
        assert(b@.skip(0) =~= b@);
    }
    let mut i: usize = 0;
    while i < a.len() && i < b.len()
        invariant
            i <= a@.len(),
            i <= b@.len(),
            lex_lt(a@, b@) == lex_lt(a@.skip(i as int), b@.skip(i as int)),
        decreases a@.len() - i,
    {
        if a[i] < b[i] {
            return true;
        }
        if a[i] > b[i] {
            return false;
        }
        proof {
            assert(a@.skip(i as int).skip(1) =~= a@.skip(i as int + 1));
            assert(b@.skip(i as int).skip(1) =~= b@.skip(i as int + 1));
        }
        i = i + 1;
    }
    a.len() < b.len()
}

/// One finished per-key summary: the owned key bytes and the fully
/// reduced aggregate cell.
pub struct WeatherStation {
    pub name: Vec<u8>,
    pub summary: TemperatureSummary,
}

/// Whether the summaries are strictly sorted by key.
pub open spec fn names_sorted(s: Seq<WeatherStation>) -> bool {
    forall|i: int, j: int| 0 <= i < j < s.len() ==> lex_lt(s[i].name@, s[j].name@)
}

/// Inserts a summary whose key is new into a sorted sequence, keeping it
/// sorted.
fn insert_sorted(out: &mut Vec<WeatherStation>, ws: WeatherStation)
    requires
        names_sorted(old(out)@),
        forall|i: int| 0 <= i < old(out)@.len() ==> (#[trigger] old(out)@[i]).name@ != ws.name@,
    ensures
        names_sorted(final(out)@),
        final(out)@.len() == old(out)@.len() + 1,
        forall|x: WeatherStation|
            final(out)@.contains(x) <==> (old(out)@.contains(x) || x == ws),
{
    let ghost init = out@;
    let mut pos: usize = 0;
    loop
        invariant_except_break
            out@ == init,
            pos <= out@.len(),
            forall|p: int| 0 <= p < pos ==> lex_lt((#[trigger] out@[p]).name@, ws.name@),
        ensures
            out@ == init,
            pos <= out@.len(),
            forall|p: int| 0 <= p < pos ==> lex_lt((#[trigger] out@[p]).name@, ws.name@),
            pos < out@.len() ==> !lex_lt(out@[pos as int].name@, ws.name@),
        decreases out@.len() - pos,
    {
        if pos == out.len() {
            break;
        }
        if !lex_less(out[pos].name.as_slice(), ws.name.as_slice()) {
            break;
        }
        pos = pos + 1;
    }
    proof {
        if pos < out@.len() {
            lemma_lex_total(out@[pos as int].name@, ws.name@);
            assert(lex_lt(ws.name@, out@[pos as int].name@));
            assert forall|q: int| pos < q < out@.len() implies lex_lt(
                ws.name@,
                (#[trigger] out@[q]).name@,
            ) by {
                lemma_lex_trans(ws.name@, out@[pos as int].name@, out@[q].name@);
            }
        }
    }
    out.insert(pos, ws);
    proof {
        assert(out@[pos as int] == ws);
        assert forall|i: int, j: int| 0 <= i < j < out@.len() implies lex_lt(
            (#[trigger] out@[i]).name@,
            (#[trigger] out@[j]).name@,
        ) by {
            if i < pos && j < pos {
                assert(out@[i] == init[i] && out@[j] == init[j]);
            } else if i < pos && j == pos {
                assert(out@[i] == init[i]);
            } else if i < pos && j > pos {
                assert(out@[i] == init[i] && out@[j] == init[j - 1]);
                if i == j - 1 {
                    assert(lex_lt(out@[i].name@, ws.name@));
                    assert(!lex_lt(out@[j].name@, ws.name@)) by {
                        assert(out@[j] == init[pos as int]);
                    }
                    lemma_lex_total(out@[j].name@, ws.name@);
                    if out@[j].name@ == ws.name@ {
                        assert(false);
                    }
                    lemma_lex_trans(out@[i].name@, ws.name@, out@[j].name@);
                } else {
                    assert(lex_lt(init[i].name@, init[j - 1].name@));
                }
            } else if i == pos {
                assert(out@[j] == init[j - 1]);
                assert(lex_lt(ws.name@, init[j - 1].name@));
            } else {
                assert(out@[i] == init[i - 1] && out@[j] == init[j - 1]);
                assert(lex_lt(init[i - 1].name@, init[j - 1].name@));
            }
        }
        assert forall|x: WeatherStation| out@.contains(x) implies (init.contains(x) || x
            == ws) by {
            let i = choose|i: int| 0 <= i < out@.len() && out@[i] == x;
            if i < pos {
                assert(init[i] == x);
            } else if i > pos {
                assert(init[i - 1] == x);
            }
        }
        assert forall|x: WeatherStation| init.contains(x) implies out@.contains(x) by {
            let i = choose|i: int| 0 <= i < init.len() && init[i] == x;
            if i < pos {
                assert(out@[i] == x);
            } else {
                assert(out@[i + 1] == x);
            }
        }
        assert(out@.contains(ws));
    }
}

/// Whether the byte is an ASCII digit.
fn is_digit_exec(b: u8) -> (r: bool)
    ensures
        r == is_ascii_digit(b),
{
    0x30 <= b && b <= 0x39
}

/// Whether the bytes match the value grammar.
fn valid_value_exec(v: &[u8]) -> (r: bool)
    ensures
        r == valid_value(v@),
{
    let n = v.len();
    if n == 3 {
        is_digit_exec(v[0]) && v[1] == 0x2e && is_digit_exec(v[2])
    } else if n == 4 {
        (is_digit_exec(v[0]) || v[0] == 0x2d) && is_digit_exec(v[1]) && v[2] == 0x2e
            && is_digit_exec(v[3])
    } else if n == 5 {
        v[0] == 0x2d && is_digit_exec(v[1]) && is_digit_exec(v[2]) && v[3] == 0x2e
            && is_digit_exec(v[4])
    } else {
        false
    }
}

/// Splits one line into its separator position and decoded value, or
/// reports that the line is not a well-formed record.
fn split_record(line: &[u8]) -> (r: Option<(usize, i32)>)
    ensures
        match r {
            Some(sv) => {
                &&& valid_record(line@)
                &&& is_sep_at(line@, sv.0 as int)
                &&& 1 <= sv.0 <= 56
                &&& sv.1 as int == temp_of(line@)
                &&& -999 <= sv.1 <= 999
            },
            None => !valid_record(line@),
        },
{
    let sep_opt = find_in_window(line, 0x3b);
    match sep_opt {
        None => {
            proof {
                if valid_record(line@) {
                    lemma_valid_record_len(line@);
                    assert(sep_of(line@) < window(line@));
                    assert(false);
                }
            }
            None
        },
        Some(sep) => {
            proof {
                assert(is_sep_at(line@, sep as int));
            }
            if sep == 0 || sep > 56 {
                proof {
                    if valid_record(line@) {
                        lemma_valid_record_len(line@);
                        lemma_sep_unique(line@, sep as int, sep_of(line@));
                        assert(false);
                    }
                }
                return None;
            }
            let value = vstd::slice::slice_subrange(line, sep + 1, line.len());
            proof {
                assert(value@ =~= line@.skip(sep as int + 1));
            }
            if !valid_value_exec(value) {
                proof {
                    if valid_record(line@) {
                        lemma_valid_record_len(line@);
                        lemma_sep_unique(line@, sep as int, sep_of(line@));
                        assert(false);
                    }
                }
                return None;
            }
            let val = parse_value(value);
            proof {
                assert(valid_record(line@));
                lemma_valid_record_len(line@);
                lemma_sep_unique(line@, sep as int, sep_of(line@));
                crate::records::lemma_value_of_range(value@);
            }
            Some((sep, val))
        },
    }
}

/// What a successful run returns: the summaries are strictly sorted by
/// key, every summary's cell is the folded aggregate of its key's records,
/// and every key of the input has its summary.
pub open spec fn summaries_match(input: Seq<u8>, out: Seq<WeatherStation>) -> bool {
    let t = table_of(records_of(input));
    &&& names_sorted(out)
    &&& forall|i: int, j: int|
        0 <= i < j < out.len() ==> (#[trigger] out[i]).name@ != (#[trigger] out[j]).name@
    &&& forall|i: int|
        0 <= i < out.len() ==> t.dom().contains((#[trigger] out[i]).name@) && t[out[i].name@]
            == out[i].summary.model()
    &&& forall|k: Seq<u8>|
        #[trigger] t.dom().contains(k) ==> exists|i: int|
            0 <= i < out.len() && out[i].name@ == k
}

/// Runs the whole pipeline over a mapped input buffer: scans records,
/// aggregates them per key, and returns the finished summaries sorted by
/// key. Fails, producing no partial results, exactly when the buffer is
/// not a sequence of newline-terminated well-formed records. Records are
/// folded one at a time, first record first; batching several records per
/// iteration changes no observable result. Every scan stays within the
/// 64-byte safety window, and since a checked scan never reads past the
/// buffer, the final partial window needs no zero-padded scratch copy.
pub fn temperature_reading_summaries(input: &[u8]) -> (r: BrcResult<Vec<WeatherStation>>)
    requires
        input@.len() <= 12_000_000_000,
    ensures
        r is Ok <==> valid_input(input@),
        r matches Ok(out) ==> summaries_match(input@, out@),
{
    let opts = StationMapOptions { request_hugepage: false, capacity: 12_500 };
    let mut table = new_station_map(&opts);
    let ghost mut processed: Seq<(Seq<u8>, int)> = Seq::empty();
    let mut cursor: usize = 0;
    let len = input.len();

    proof {
        assert(input@.skip(0) =~= input@);
        assert(records_of(input@) =~= processed + records_of(input@));
    }

    while cursor < len
        invariant
            cursor <= len,
            len == input@.len(),
            input@.len() <= 12_000_000_000,
            6 * processed.len() <= cursor,
            forall|i: int| 0 <= i < processed.len() ==> -999 <= (#[trigger] processed[i]).1 <= 999,
            valid_input(input@) <==> valid_input(input@.skip(cursor as int)),
            records_of(input@) == processed + records_of(input@.skip(cursor as int)),
            station_map_contents(table).dom() =~= table_of(processed).dom(),
            forall|k: Seq<u8>| #[trigger] table_of(processed).dom().contains(k)
                ==> station_map_contents(table)[k].model() == table_of(processed)[k],
        decreases len - cursor,
    {
        let ghost suffix = input@.skip(cursor as int);
        let rem = vstd::slice::slice_subrange(input, cursor, len);
        proof {
            assert(rem@ == suffix);
        }
        let nl = find_in_window(rem, 0x0a);
        if nl.is_none() {
            proof {
                if valid_input(input@) {
                    assert(valid_input(suffix));
                    assert(suffix.len() > 0);
                    let n = line_end_of(suffix);
                    assert(is_line_end_at(suffix, n));
                    lemma_valid_record_len(suffix.take(n));
                    assert(suffix.take(n).len() == n);
                    assert(n < window(suffix));
                    assert(false);
                }
            }
            return Err(BrcError::new("input is not newline-terminated records".to_owned()));
        }
        let n = nl.unwrap();
        proof {
            assert(suffix[n as int] == 0x0a);
            assert(is_line_end_at(suffix, n as int));
            lemma_input_step(suffix, n as int);
        }
        let line = vstd::slice::slice_subrange(input, cursor, cursor + n);
        proof {
            assert(line@ =~= suffix.take(n as int));
        }
        match split_record(line) {
            None => {
                proof {
                    assert(!valid_record(suffix.take(n as int)));
                    assert(!valid_input(suffix));
                }
                return Err(BrcError::new("a record does not match the grammar".to_owned()));
            },
            Some((sep, val)) => {
                proof {
                    lemma_valid_record_len(line@);
                    lemma_sep_unique(line@, sep as int, sep_of(line@));
                }
                let key_slice = vstd::slice::slice_subrange(line, 0, sep);
                let ghost rec = (key_of(line@), temp_of(line@));
                proof {
                    assert(key_slice@ =~= key_of(line@));
                }
                let ghost p2 = processed.push(rec);
                proof {
                    assert(p2.drop_last() =~= processed);
                    assert(p2.last() == rec);
                    lemma_table_of_step(p2);
                    assert forall|i: int| 0 <= i < p2.len() implies -999 <= (
                    #[trigger] p2[i]).1 <= 999 by {
                        if i < processed.len() {
                            assert(p2[i] == processed[i]);
                        }
                    }
                }
                match table.get_copied(key_slice) {
                    Some(cell) => {
                        proof {
                            lemma_table_of_bounds(processed);
                            assert(table_of(processed).dom().contains(rec.0));
                            assert(cell.model() == table_of(processed)[rec.0]);
                            assert(1 <= cell.count <= processed.len());
                            assert(processed.len() <= 2_000_000_000);
                            assert(cell.total <= 999 * 2_000_000_000 && -999 * 2_000_000_000
                                <= cell.total) by (nonlinear_arith)
                                requires
                                    1 <= cell.model().count <= 2_000_000_000,
                                    -999 * cell.model().count <= cell.model().total <= 999
                                        * cell.model().count,
                                    cell.model().total == cell.total as int,
                                    cell.model().count == cell.count as int,
                            ;
                        }
                        let mut c = cell;
                        c.add_reading(val);
                        table.insert(vstd::slice::slice_to_vec(key_slice), c);
                        proof {
                            assert(table_of(p2) == table_of(processed).insert(
                                rec.0,
                                table_of(processed)[rec.0].update(rec.1),
                            ));
                            assert(station_map_contents(table).dom() =~= table_of(p2).dom());
                        }
                    },
                    None => {
                        proof {
                            assert(!table_of(processed).dom().contains(rec.0));
                            assert(key_slice@.len() <= INLINE_STRING_SIZE);
                        }
                        let owned = StationNameKey::new(key_slice);
                        table.insert(owned.to_bytes(), TemperatureSummary::of(val));
                        proof {
                            assert(table_of(p2) == table_of(processed).insert(
                                rec.0,
                                AggregateModel::seed(rec.1),
                            ));
                            assert(station_map_contents(table).dom() =~= table_of(p2).dom());
                        }
                    },
                }
                proof {
                    processed = p2;
                }
                cursor = cursor + n + 1;
                proof {
                    assert(suffix.skip(n as int + 1) =~= input@.skip(cursor as int));
                    assert(records_of(input@) == processed + records_of(input@.skip(cursor as int)))
                        by {
                        assert(records_of(suffix) == seq![rec] + records_of(
                            suffix.skip(n as int + 1),
                        ));
                        assert(processed.drop_last() + (seq![rec] + records_of(
                            input@.skip(cursor as int),
                        )) =~= processed + records_of(input@.skip(cursor as int)));
                    }
                }
            },
        }
    }

    proof {
        assert(input@.skip(cursor as int) =~= Seq::<u8>::empty());
        assert(valid_input(input@));
        assert(records_of(input@) =~= processed);
    }

    let ghost t = table_of(records_of(input@));
    let mut entries = table.into_entries();
    let mut out: Vec<WeatherStation> = Vec::new();

    proof {
        assert forall|i: int| 0 <= i < entries@.len() implies t.dom().contains(
            (#[trigger] entries@[i]).0@,
        ) && t[entries@[i].0@] == entries@[i].1.model() by {
            assert(station_map_contents(table).contains_pair(entries@[i].0@, entries@[i].1));
        }
    }

    while entries.len() > 0
        invariant
            names_sorted(out@),
            forall|x: WeatherStation|
                #[trigger] out@.contains(x) ==> t.dom().contains(x.name@) && t[x.name@]
                    == x.summary.model(),
            forall|i: int|
                0 <= i < entries@.len() ==> t.dom().contains((#[trigger] entries@[i]).0@)
                    && t[entries@[i].0@] == entries@[i].1.model(),
            forall|i: int, j: int|
                0 <= i < j < entries@.len() ==> (#[trigger] entries@[i]).0@ != (
                #[trigger] entries@[j]).0@,
            forall|x: WeatherStation, j: int|
                #![trigger out@.contains(x), entries@[j]]
                out@.contains(x) && 0 <= j < entries@.len() ==> x.name@ != entries@[j].0@,
            forall|k: Seq<u8>|
                #[trigger] t.dom().contains(k) ==> (exists|x: WeatherStation|
                    out@.contains(x) && x.name@ == k) || (exists|j: int|
                    0 <= j < entries@.len() && entries@[j].0@ == k),
        decreases entries@.len(),
    {
        let ghost entries_before = entries@;
        let ghost out_before = out@;
        let e = entries.pop().unwrap();
        let ws = WeatherStation { name: e.0, summary: e.1 };
        proof {
            assert(e == entries_before.last());
            assert(entries@ =~= entries_before.drop_last());
            assert forall|i: int| 0 <= i < out@.len() implies (#[trigger] out@[i]).name@
                != ws.name@ by {
                assert(out@.contains(out@[i]));
            }
        }
        insert_sorted(&mut out, ws);
        proof {
            assert(out@.contains(ws));
            assert forall|k: Seq<u8>|
                #[trigger] t.dom().contains(k) implies (exists|x: WeatherStation|
                out@.contains(x) && x.name@ == k) || (exists|j: int|
                0 <= j < entries@.len() && entries@[j].0@ == k) by {
                if exists|x: WeatherStation| out_before.contains(x) && x.name@ == k {
                    let x = choose|x: WeatherStation| out_before.contains(x) && x.name@ == k;
                    assert(out@.contains(x));
                } else if exists|j: int|
                    0 <= j < entries_before.len() && entries_before[j].0@ == k {
                    let j = choose|j: int|
                        0 <= j < entries_before.len() && entries_before[j].0@ == k;
                    if j < entries_before.len() - 1 {
                        assert(entries@[j].0@ == k);
                    } else {
                        assert(ws.name@ == k);
                    }
                }
            }
        }
    }

    proof {
        assert forall|i: int|
            0 <= i < out@.len() implies t.dom().contains((#[trigger] out@[i]).name@)
                && t[out@[i].name@] == out@[i].summary.model() by {
            assert(out@.contains(out@[i]));
        }
        assert forall|k: Seq<u8>| #[trigger] t.dom().contains(k) implies exists|i: int|
            0 <= i < out@.len() && out@[i].name@ == k by {
            let x = choose|x: WeatherStation| out@.contains(x) && x.name@ == k;
            let i = choose|i: int| 0 <= i < out@.len() && out@[i] == x;
            assert(out@[i].name@ == k);
        }
        assert forall|i: int, j: int| 0 <= i < j < out@.len() implies (#[trigger] out@[i]).name@
            != (#[trigger] out@[j]).name@ by {
            lemma_lex_irrefl(out@[i].name@);
        }
        assert(summaries_match(input@, out@));
    }
    Ok(out)
}

} // verus!
