//! Grouped row count over one CSV column: the file's rows are grouped by the
//! value of a chosen column, each group is counted, and the table of
//! (value, count) pairs comes back sorted ascending by value.
//!
//! The CSV shape read here is the plain one: lines separated by a newline
//! (with an optional carriage return before it), fields separated by commas,
//! the first line a header naming the columns.

use vstd::prelude::*;

verus! {

/// Byte value of the line feed.
pub const NL: u8 = 10;

/// Byte value of the carriage return.
pub const CR: u8 = 13;

/// Byte value of the comma.
pub const COMMA: u8 = 44;

/// The fields of `s` between occurrences of `sep`: always one field more
/// than there are separators.
pub open spec fn split_on(s: Seq<u8>, sep: u8) -> Seq<Seq<u8>>
    decreases s.len(),
{
    if s.len() == 0 {
        seq![Seq::<u8>::empty()]
    } else {
        let prev = split_on(s.drop_last(), sep);
        if s.last() == sep {
            prev.push(Seq::empty())
        } else {
            prev.update(prev.len() - 1, prev.last().push(s.last()))
        }
    }
}

/// Splitting yields at least one field.
pub proof fn lemma_split_on_len(s: Seq<u8>, sep: u8)
    ensures
        split_on(s, sep).len() >= 1,
    decreases s.len(),
{
    if s.len() > 0 {
        lemma_split_on_len(s.drop_last(), sep);
    }
}

/// A line with one trailing carriage return removed, so that files with
/// CRLF and LF line endings read alike.
pub open spec fn strip_cr(l: Seq<u8>) -> Seq<u8> {
    if l.len() > 0 && l.last() == CR {
        l.drop_last()
    } else {
        l
    }
}

/// Every line with its trailing carriage return stripped.
pub open spec fn strip_all_cr(ls: Seq<Seq<u8>>) -> Seq<Seq<u8>> {
    ls.map_values(|l: Seq<u8>| strip_cr(l))
}

/// The lines of a CSV file: the bytes split on newlines, the one empty line
/// a trailing newline would add dropped, and a trailing carriage return
/// stripped from each line.
pub open spec fn csv_lines(s: Seq<u8>) -> Seq<Seq<u8>> {
    let raw = split_on(s, NL);
    let trimmed = if raw.len() > 0 && raw.last().len() == 0 {
        raw.drop_last()
    } else {
        raw
    };
    strip_all_cr(trimmed)
}

/// The fields of one CSV row.
pub open spec fn row_fields(l: Seq<u8>) -> Seq<Seq<u8>> {
    split_on(l, COMMA)
}

/// The first index among `fields` whose field equals `name`.
pub open spec fn first_match(fields: Seq<Seq<u8>>, name: Seq<u8>) -> Option<int>
    decreases fields.len(),
{
    if fields.len() == 0 {
        None
    } else if fields[0] == name {
        Some(0int)
    } else {
        match first_match(fields.skip(1), name) {
            Some(i) => Some(i + 1),
            None => None,
        }
    }
}

/// What `first_match` finds: the index of the first occurrence, or nothing
/// exactly when no field equals `name`.
pub proof fn lemma_first_match(fields: Seq<Seq<u8>>, name: Seq<u8>)
    ensures
        match first_match(fields, name) {
            Some(i) => 0 <= i < fields.len() && fields[i] == name && forall|k: int|
                0 <= k < i ==> fields[k] != name,
            None => forall|k: int| 0 <= k < fields.len() ==> fields[k] != name,
        },
    decreases fields.len(),
{
    if fields.len() > 0 && fields[0] != name {
        lemma_first_match(fields.skip(1), name);
        match first_match(fields.skip(1), name) {
            Some(i) => {
                assert(fields[i + 1] == fields.skip(1)[i]);
                assert forall|k: int| 0 <= k < i + 1 implies fields[k] != name by {
                    if k >= 1 {
                        assert(fields[k] == fields.skip(1)[k - 1]);
                    }
                }
            },
            None => {
                assert forall|k: int| 0 <= k < fields.len() implies fields[k] != name by {
                    if k >= 1 {
                        assert(fields[k] == fields.skip(1)[k - 1]);
                    }
                }
            },
        }
    }
}

/// Strict lexicographic order on byte strings; a proper prefix comes first.
pub open spec fn lex_lt(a: Seq<u8>, b: Seq<u8>) -> bool
    decreases a.len(),
{
    if b.len() == 0 {
        false
    } else if a.len() == 0 {
        true
    } else if a[0] < b[0] {
        true
    } else if a[0] > b[0] {
        false
    } else {
        lex_lt(a.skip(1), b.skip(1))
    }
}

/// Of two byte strings, either one is lexicographically first or they are
/// equal, and never both directions at once.
pub proof fn lemma_lex_total(a: Seq<u8>, b: Seq<u8>)
    ensures
        lex_lt(a, b) || lex_lt(b, a) || a == b,
        !(lex_lt(a, b) && lex_lt(b, a)),
    decreases a.len(),
{
    if a.len() > 0 && b.len() > 0 && a[0] == b[0] {
        lemma_lex_total(a.skip(1), b.skip(1));
        if !lex_lt(a, b) && !lex_lt(b, a) {
            assert(a.skip(1) == b.skip(1));
            assert(a.len() == b.len());
            assert forall|i: int| 0 <= i < a.len() implies a[i] == b[i] by {
                if i >= 1 {
                    assert(a[i] == a.skip(1)[i - 1]);
                    assert(b[i] == b.skip(1)[i - 1]);
                }
            }
            assert(a =~= b);
        }
    }
}

/// Lexicographic order is transitive.
pub proof fn lemma_lex_trans(a: Seq<u8>, b: Seq<u8>, c: Seq<u8>)
    requires
        lex_lt(a, b),
        lex_lt(b, c),
    ensures
        lex_lt(a, c),
    decreases a.len(),
{
    if a.len() > 0 && b.len() > 0 && c.len() > 0 && a[0] == b[0] && b[0] == c[0] {
        lemma_lex_trans(a.skip(1), b.skip(1), c.skip(1));
    }
}

/// How many entries of `keys` equal `k`.
pub open spec fn count_key(keys: Seq<Seq<u8>>, k: Seq<u8>) -> nat
    decreases keys.len(),
{
    if keys.len() == 0 {
        0
    } else {
        count_key(keys.drop_last(), k) + (if keys.last() == k {
            1nat
        } else {
            0nat
        })
    }
}

/// Appending one key raises exactly that key's count by one.
pub proof fn lemma_count_key_push(keys: Seq<Seq<u8>>, k: Seq<u8>, x: Seq<u8>)
    ensures
        count_key(keys.push(x), k) == count_key(keys, k) + (if x == k {
            1nat
        } else {
            0nat
        }),
{
    assert(keys.push(x).drop_last() =~= keys);
    assert(keys.push(x).last() == x);
}

/// No key occurs more often than there are keys.
pub proof fn lemma_count_key_le_len(keys: Seq<Seq<u8>>, k: Seq<u8>)
    ensures
        count_key(keys, k) <= keys.len(),
    decreases keys.len(),
{
    if keys.len() > 0 {
        lemma_count_key_le_len(keys.drop_last(), k);
    }
}

/// One output row: a category value and how many input rows carried it.
#[derive(Debug, PartialEq, Eq)]
pub struct GroupCount {
    pub key: Vec<u8>,
    pub count: usize,
}

/// The output rows are strictly ascending by key.
pub open spec fn groups_sorted(out: Seq<GroupCount>) -> bool {
    forall|j1: int, j2: int| 0 <= j1 < j2 < out.len() ==> lex_lt(
        (#[trigger] out[j1]).key@,
        (#[trigger] out[j2]).key@,
    )
}

/// Every output count is exactly how often its key occurs, and positive.
pub open spec fn counts_exact(keys: Seq<Seq<u8>>, out: Seq<GroupCount>) -> bool {
    forall|j: int| 0 <= j < out.len() ==> (#[trigger] out[j]).count == count_key(
        keys,
        out[j].key@,
    ) && out[j].count > 0
}

/// `k` appears as the key of some output row.
pub open spec fn key_present(k: Seq<u8>, out: Seq<GroupCount>) -> bool {
    exists|j: int| 0 <= j < out.len() && (#[trigger] out[j]).key@ == k
}

/// Every key of the input appears in the output.
pub open spec fn groups_complete(keys: Seq<Seq<u8>>, out: Seq<GroupCount>) -> bool {
    forall|i: int| 0 <= i < keys.len() ==> key_present(#[trigger] keys[i], out)
}

/// `out` is exactly the grouped count of `keys`: strictly ascending by key,
/// each count exact and positive, and no key missing.
pub open spec fn is_aggregation(keys: Seq<Seq<u8>>, out: Seq<GroupCount>) -> bool {
    &&& groups_sorted(out)
    &&& counts_exact(keys, out)
    &&& groups_complete(keys, out)
}

/// A key occurring a positive number of times occurs somewhere.
pub proof fn lemma_count_key_pos(keys: Seq<Seq<u8>>, k: Seq<u8>)
    requires
        count_key(keys, k) > 0,
    ensures
        exists|i: int| 0 <= i < keys.len() && keys[i] == k,
    decreases keys.len(),
{
    if keys.len() > 0 {
        if keys.last() == k {
            assert(keys[keys.len() - 1] == k);
        } else {
            lemma_count_key_pos(keys.drop_last(), k);
            let i = choose|i: int| 0 <= i < keys.drop_last().len() && keys.drop_last()[i] == k;
            assert(keys[i] == k);
        }
    }
}

/// A grouping of no keys has no rows.
pub proof fn lemma_empty_input_empty_groups(out: Seq<GroupCount>)
    requires
        is_aggregation(Seq::empty(), out),
    ensures
        out.len() == 0,
{
    if out.len() > 0 {
        assert(count_key(Seq::empty(), out[0].key@) == 0);
        assert(out[0].count > 0);
    }
}

/// The header fields of a CSV file with at least one line.
pub open spec fn header_fields(s: Seq<u8>) -> Seq<Seq<u8>> {
    row_fields(csv_lines(s)[0])
}

/// Whether every data row has exactly as many fields as the header.
pub open spec fn rows_consistent(s: Seq<u8>) -> bool {
    forall|i: int| 1 <= i < csv_lines(s).len() ==> (#[trigger] row_fields(csv_lines(s)[i])).len()
        == header_fields(s).len()
}

/// The value each of the given rows carries in column `ci`.
pub open spec fn keys_of(lines: Seq<Seq<u8>>, ci: int) -> Seq<Seq<u8>> {
    lines.map_values(|l: Seq<u8>| row_fields(l)[ci])
}

/// The grouping-column value of each data row of the CSV file.
pub open spec fn data_keys(s: Seq<u8>, ci: int) -> Seq<Seq<u8>> {
    keys_of(csv_lines(s).skip(1), ci)
}

/// A CSV with a header row and no data rows aggregates to the empty table.
pub proof fn lemma_header_only_empty_result(s: Seq<u8>, ci: int, out: Seq<GroupCount>)
    requires
        csv_lines(s).len() == 1,
        is_aggregation(data_keys(s, ci), out),
    ensures
        out.len() == 0,
{
    assert(data_keys(s, ci) =~= Seq::<Seq<u8>>::empty());
    lemma_empty_input_empty_groups(out);
}

/// The byte sequences of a vector of byte vectors.
pub open spec fn byte_views(vs: Seq<Vec<u8>>) -> Seq<Seq<u8>> {
    vs.map_values(|v: Vec<u8>| v@)
}

/// Whether two byte vectors hold the same bytes.
fn bytes_eq(a: &Vec<u8>, b: &Vec<u8>) -> (r: bool)
    ensures
        r == (a@ == b@),
{
    if a.len() != b.len() {
        return false;
    }
    let mut i: usize = 0;
    while i < a.len()
        invariant
            i <= a.len(),
            a@.len() == b@.len(),
            forall|k: int| 0 <= k < i ==> a@[k] == b@[k],
        decreases a.len() - i,
    {
        if a[i] != b[i] {
            return false;
        }
        i = i + 1;
    }
    proof {
        assert(a@ =~= b@);
    }
    true
}

/// Whether `a` is lexicographically before `b`.
fn bytes_lt(a: &Vec<u8>, b: &Vec<u8>) -> (r: bool)
    ensures
        r == lex_lt(a@, b@),
{
    let mut i: usize = 0;
    proof {
        assert(a@.skip(0) =~= a@);
        assert(b@.skip(0) =~= b@);
    }
    while i < a.len() && i < b.len()
        invariant
            i <= a.len(),
            i <= b.len(),
            lex_lt(a@, b@) == lex_lt(a@.skip(i as int), b@.skip(i as int)),
        decreases a.len() - i,
    {
        proof {
            assert(a@.skip(i as int)[0] == a@[i as int]);
            assert(b@.skip(i as int)[0] == b@[i as int]);
        }
        if a[i] < b[i] {
            return true;
        }
        if a[i] > b[i] {
            return false;
        }
        proof {
            assert(a@.skip(i as int).skip(1) =~= a@.skip(i as int + 1));
            assert(b@.skip(i as int).skip(1) =~= b@.skip(i as int + 1));
        }
        i = i + 1;
    }
    i < b.len()
}

/// A copy of the bytes of `v`.
fn clone_bytes(v: &Vec<u8>) -> (r: Vec<u8>)
    ensures
        r@ == v@,
{
    let mut r: Vec<u8> = Vec::new();
    let mut i: usize = 0;
    while i < v.len()
        invariant
            i <= v.len(),
            r@ =~= v@.take(i as int),
        decreases v.len() - i,
    {
        r.push(v[i]);
        proof {
            assert(r@ =~= v@.take(i as int + 1));
        }
        i = i + 1;
    }
    proof {
        assert(r@ =~= v@);
    }
    r
}

/// Mapping a vector of byte vectors to their sequences commutes with `push`.
proof fn lemma_byte_views_push(vs: Seq<Vec<u8>>, v: Vec<u8>)
    ensures
        byte_views(vs.push(v)) =~= byte_views(vs).push(v@),
{
}

/// Splits `s` into the fields between occurrences of `sep`.
fn split_bytes(s: &Vec<u8>, sep: u8) -> (r: Vec<Vec<u8>>)
    ensures
        byte_views(r@) == split_on(s@, sep),
{
    let mut done: Vec<Vec<u8>> = Vec::new();
    let mut cur: Vec<u8> = Vec::new();
    let mut i: usize = 0;
    while i < s.len()
        invariant
            i <= s.len(),
            byte_views(done@).push(cur@) =~= split_on(s@.take(i as int), sep),
        decreases s.len() - i,
    {
        proof {
            assert(s@.take(i as int + 1).drop_last() =~= s@.take(i as int));
        }
        if s[i] == sep {
            let ghost done_before = done@;
            done.push(cur);
            cur = Vec::new();
            proof {
                lemma_byte_views_push(done_before, done@.last());
                assert(byte_views(done@).push(cur@) =~= split_on(s@.take(i as int + 1), sep));
            }
        } else {
            let ghost cur_before = cur@;
            cur.push(s[i]);
            proof {
                let prev = split_on(s@.take(i as int), sep);
                assert(prev.last() == cur_before);
                assert(byte_views(done@).push(cur@) =~= prev.update(
                    prev.len() - 1,
                    cur_before.push(s@[i as int]),
                ));
            }
        }
        i = i + 1;
    }
    proof {
        assert(s@.take(s@.len() as int) =~= s@);
    }
    let ghost done_before = done@;
    done.push(cur);
    proof {
        lemma_byte_views_push(done_before, done@.last());
        assert(byte_views(done@) =~= split_on(s@, sep));
    }
    done
}

/// The lines of the CSV file, ready to be split into fields.
fn csv_lines_exec(csv: &Vec<u8>) -> (r: Vec<Vec<u8>>)
    ensures
        byte_views(r@) == csv_lines(csv@),
{
    let mut lines = split_bytes(csv, NL);
    proof {
        lemma_split_on_len(csv@, NL);
    }
    let ghost raw = split_on(csv@, NL);
    let n = lines.len();
    proof {
        assert(raw[n - 1] == lines@[n - 1]@);
    }
    if lines[n - 1].len() == 0 {
        let ghost whole = lines@;
        lines.pop();
        proof {
            assert(byte_views(lines@) =~= byte_views(whole).drop_last());
            assert(byte_views(lines@) =~= raw.drop_last());
        }
    }
    let ghost trimmed = byte_views(lines@);
    proof {
        assert(csv_lines(csv@) == strip_all_cr(trimmed));
    }
    let mut out: Vec<Vec<u8>> = Vec::new();
    let mut i: usize = 0;
    while i < lines.len()
        invariant
            i <= lines.len(),
            trimmed == byte_views(lines@),
            byte_views(out@) =~= strip_all_cr(trimmed.subrange(0, i as int)),
        decreases lines.len() - i,
    {
        let mut line = clone_bytes(&lines[i]);
        let ll = line.len();
        if ll > 0 && line[ll - 1] == CR {
            line.pop();
        }
        proof {
            assert(trimmed[i as int] == lines@[i as int]@);
            assert(line@ == strip_cr(trimmed[i as int]));
        }
        let ghost out_before = out@;
        out.push(line);
        proof {
            lemma_byte_views_push(out_before, out@.last());
            assert(byte_views(out@) =~= strip_all_cr(trimmed.subrange(0, i as int + 1)));
        }
        i = i + 1;
    }
    proof {
        assert(trimmed.subrange(0, trimmed.len() as int) =~= trimmed);
        assert(byte_views(out@) =~= strip_all_cr(trimmed));
    }
    out
}

/// Looks `name` up among the header fields; the first match counts.
fn find_field(fields: &Vec<Vec<u8>>, name: &Vec<u8>) -> (r: Option<usize>)
    ensures
        match r {
            Some(i) => first_match(byte_views(fields@), name@) == Some(i as int),
            None => first_match(byte_views(fields@), name@) is None,
        },
{
    let mut i: usize = 0;
    while i < fields.len()
        invariant
            i <= fields.len(),
            forall|k: int| 0 <= k < i ==> #[trigger] byte_views(fields@)[k] != name@,
        decreases fields.len() - i,
    {
        let hit = bytes_eq(&fields[i], name);
        proof {
            assert(byte_views(fields@)[i as int] == fields@[i as int]@);
        }
        if hit {
            proof {
                lemma_first_match(byte_views(fields@), name@);
            }
            return Some(i);
        }
        i = i + 1;
    }
    proof {
        lemma_first_match(byte_views(fields@), name@);
    }
    None
}

/// Adds one occurrence of `key` to grouped counts that are exact and sorted
/// for `keys`, keeping them exact and sorted for `keys` with `key` appended.
fn insert_key(groups: &mut Vec<GroupCount>, key: Vec<u8>, Ghost(keys): Ghost<Seq<Seq<u8>>>)
    requires
        is_aggregation(keys, old(groups)@),
        keys.len() < usize::MAX,
    ensures
        is_aggregation(keys.push(key@), final(groups)@),
{
    let ghost kv = key@;
    let ghost new_keys = keys.push(kv);
    let mut idx: usize = 0;
    while idx < groups.len() && bytes_lt(&groups[idx].key, &key)
        invariant
            idx <= groups@.len(),
            *groups == *old(groups),
            forall|j: int| 0 <= j < idx ==> lex_lt((#[trigger] groups@[j]).key@, key@),
        decreases groups@.len() - idx,
    {
        idx = idx + 1;
    }
    let ghost before = groups@;
    let found = idx < groups.len() && bytes_eq(&groups[idx].key, &key);
    if found {
        let c = groups[idx].count;
        proof {
            lemma_count_key_le_len(keys, kv);
            assert(before[idx as int].count == count_key(keys, before[idx as int].key@));
        }
        groups.set(idx, GroupCount { key, count: c + 1 });
        proof {
            let after = groups@;
            assert(after[idx as int].key@ == before[idx as int].key@);
            assert forall|j1: int, j2: int| 0 <= j1 < j2 < after.len() implies lex_lt(
                (after[j1]).key@,
                (after[j2]).key@,
            ) by {
                assert(lex_lt((before[j1]).key@, (before[j2]).key@));
                assert(after[j1].key@ == before[j1].key@);
                assert(after[j2].key@ == before[j2].key@);
            }
            assert forall|j: int| 0 <= j < after.len() implies (#[trigger] after[j]).count
                == count_key(new_keys, after[j].key@) && after[j].count > 0 by {
                lemma_count_key_push(keys, after[j].key@, kv);
                if j != idx {
                    assert(after[j] == before[j]);
                    assert(before[j].count == count_key(keys, before[j].key@));
                    if j < idx {
                        assert(lex_lt(before[j].key@, kv));
                        lemma_lex_total(before[j].key@, kv);
                    } else {
                        assert(lex_lt(before[idx as int].key@, before[j].key@));
                        lemma_lex_total(kv, before[j].key@);
                    }
                }
            }
            assert forall|i2: int| 0 <= i2 < new_keys.len() implies key_present(
                #[trigger] new_keys[i2],
                after,
            ) by {
                if i2 < keys.len() {
                    assert(key_present(keys[i2], before));
                    let j = choose|j: int|
                        0 <= j < before.len() && (#[trigger] before[j]).key@ == keys[i2];
                    assert((after[j]).key@ == keys[i2]);
                } else {
                    assert(new_keys[i2] == kv);
                    assert((after[idx as int]).key@ == kv);
                }
            }
        }
        return;
    }
    proof {
        assert forall|j: int| idx <= j < before.len() implies lex_lt(
            kv,
            (#[trigger] before[j]).key@,
        ) by {
            lemma_lex_total(before[idx as int].key@, kv);
            if j > idx {
                assert(lex_lt(before[idx as int].key@, before[j].key@));
                lemma_lex_trans(kv, before[idx as int].key@, before[j].key@);
            }
        }
        assert(count_key(keys, kv) == 0) by {
            if count_key(keys, kv) > 0 {
                lemma_count_key_pos(keys, kv);
                let i0 = choose|i0: int| 0 <= i0 < keys.len() && keys[i0] == kv;
                assert(key_present(keys[i0], before));
                let j = choose|j: int|
                    0 <= j < before.len() && (#[trigger] before[j]).key@ == keys[i0];
                if j < idx {
                    assert(lex_lt(before[j].key@, kv));
                    lemma_lex_total(before[j].key@, kv);
                } else {
                    assert(lex_lt(kv, before[j].key@));
                    lemma_lex_total(kv, before[j].key@);
                }
            }
        }
    }
    let elt = GroupCount { key, count: 1 };
    let ghost elt_s = elt;
    groups.insert(idx, elt);
    proof {
        before.insert_ensures(idx as int, elt_s);
        let after = groups@;
        assert(after[idx as int] == elt_s);
        assert(elt_s.key@ == kv);
        assert forall|j1: int, j2: int| 0 <= j1 < j2 < after.len() implies lex_lt(
            (after[j1]).key@,
            (after[j2]).key@,
        ) by {
            if j1 < idx && j2 < idx {
                assert(after[j1] == before[j1]);
                assert(after[j2] == before[j2]);
            } else if j1 < idx && j2 == idx {
                assert(after[j1] == before[j1]);
                assert(lex_lt(before[j1].key@, kv));
            } else if j1 < idx && j2 > idx {
                assert(after[j1] == before[j1]);
                assert(after[j2] == before[j2 - 1]);
                assert(lex_lt(before[j1].key@, before[j2 - 1].key@));
            } else if j1 == idx && j2 > idx {
                assert(after[j2] == before[j2 - 1]);
                assert(lex_lt(kv, before[j2 - 1].key@));
            } else {
                assert(after[j1] == before[j1 - 1]);
                assert(after[j2] == before[j2 - 1]);
                assert(lex_lt(before[j1 - 1].key@, before[j2 - 1].key@));
            }
        }
        assert forall|j: int| 0 <= j < after.len() implies (#[trigger] after[j]).count
            == count_key(new_keys, after[j].key@) && after[j].count > 0 by {
            lemma_count_key_push(keys, after[j].key@, kv);
            if j == idx {
                assert(after[j].key@ == kv);
            } else if j < idx {
                assert(after[j] == before[j]);
                assert(before[j].count == count_key(keys, before[j].key@));
                assert(lex_lt(before[j].key@, kv));
                lemma_lex_total(before[j].key@, kv);
            } else {
                assert(after[j] == before[j - 1]);
                assert(before[j - 1].count == count_key(keys, before[j - 1].key@));
                assert(lex_lt(kv, before[j - 1].key@));
                lemma_lex_total(kv, before[j - 1].key@);
            }
        }
        assert forall|i2: int| 0 <= i2 < new_keys.len() implies key_present(
            #[trigger] new_keys[i2],
            after,
        ) by {
            if i2 < keys.len() {
                assert(key_present(keys[i2], before));
                let j = choose|j: int|
                    0 <= j < before.len() && (#[trigger] before[j]).key@ == keys[i2];
                if j < idx {
                    assert((after[j]).key@ == keys[i2]);
                } else {
                    assert(after[j + 1] == before[j]);
                    assert((after[j + 1]).key@ == keys[i2]);
                }
            } else {
                assert(new_keys[i2] == kv);
                assert((after[idx as int]).key@ == kv);
            }
        }
    }
}

/// Why aggregation failed. Each failure aborts the run.
#[derive(Clone, Copy, PartialEq, Eq, Structural, Debug)]
pub enum AggError {
    /// The file has no lines at all, so there is no header row.
    EmptyInput,
    /// The grouping column is absent from the header row.
    MissingColumn,
    /// A data row has a different number of fields than the header.
    RaggedRow,
}

/// Groups the data rows of the CSV bytes `csv` by the value of the column
/// named `group_column`, counts the rows of each group, and returns the
/// table sorted ascending by the column's value; or says exactly why it
/// could not.
pub fn aggregate(csv: &Vec<u8>, group_column: &Vec<u8>) -> (r: Result<Vec<GroupCount>, AggError>)
    ensures
        (match r {
            Ok(out) => {
                &&& csv_lines(csv@).len() > 0
                &&& rows_consistent(csv@)
                &&& first_match(header_fields(csv@), group_column@) matches Some(ci)
                    && is_aggregation(data_keys(csv@, ci), out@)
            },
            Err(e) => match e {
                AggError::EmptyInput => csv_lines(csv@).len() == 0,
                AggError::MissingColumn => csv_lines(csv@).len() > 0 && first_match(
                    header_fields(csv@),
                    group_column@,
                ) is None,
                AggError::RaggedRow => csv_lines(csv@).len() > 0 && first_match(
                    header_fields(csv@),
                    group_column@,
                ) is Some && !rows_consistent(csv@),
            },
        }),
{
    let lines = csv_lines_exec(csv);
    let ghost lines_s = csv_lines(csv@);
    let nlines = lines.len();
    if nlines == 0 {
        return Err(AggError::EmptyInput);
    }
    let header = split_bytes(&lines[0], COMMA);
    proof {
        assert(lines_s[0] == lines@[0]@);
        assert(byte_views(header@) == header_fields(csv@));
    }
    let hlen = header.len();
    let ci = match find_field(&header, group_column) {
        Some(ci) => ci,
        None => {
            return Err(AggError::MissingColumn);
        },
    };
    proof {
        lemma_first_match(header_fields(csv@), group_column@);
    }
    let mut groups: Vec<GroupCount> = Vec::new();
    proof {
        assert(lines_s.subrange(1, 1) =~= Seq::<Seq<u8>>::empty());
        assert(keys_of(lines_s.subrange(1, 1), ci as int) =~= Seq::<Seq<u8>>::empty());
    }
    let mut i: usize = 1;
    while i < nlines
        invariant
            1 <= i <= nlines,
            nlines == lines@.len(),
            lines_s == byte_views(lines@),
            lines_s == csv_lines(csv@),
            lines_s.len() == nlines,
            hlen == header_fields(csv@).len(),
            first_match(header_fields(csv@), group_column@) == Some(ci as int),
            ci < hlen,
            forall|j: int| 1 <= j < i ==> (#[trigger] row_fields(lines_s[j])).len() == hlen,
            is_aggregation(keys_of(lines_s.subrange(1, i as int), ci as int), groups@),
        decreases nlines - i,
    {
        let fields = split_bytes(&lines[i], COMMA);
        proof {
            assert(lines_s[i as int] == lines@[i as int]@);
            assert(byte_views(fields@) == row_fields(lines_s[i as int]));
        }
        if fields.len() != hlen {
            proof {
                assert(row_fields(csv_lines(csv@)[i as int]).len() != header_fields(csv@).len());
            }
            return Err(AggError::RaggedRow);
        }
        let key = clone_bytes(&fields[ci]);
        proof {
            assert(byte_views(fields@)[ci as int] == fields@[ci as int]@);
            assert(key@ == row_fields(lines_s[i as int])[ci as int]);
        }
        insert_key(&mut groups, key, Ghost(keys_of(lines_s.subrange(1, i as int), ci as int)));
        proof {
            assert(keys_of(lines_s.subrange(1, i as int + 1), ci as int) =~= keys_of(
                lines_s.subrange(1, i as int),
                ci as int,
            ).push(row_fields(lines_s[i as int])[ci as int]));
        }
        i = i + 1;
    }
    proof {
        assert(lines_s.subrange(1, lines_s.len() as int) =~= lines_s.skip(1));
        assert(keys_of(lines_s.subrange(1, lines_s.len() as int), ci as int) == data_keys(
            csv@,
            ci as int,
        ));
    }
    Ok(groups)
}

/// A declarative aggregation plan: the grouping column is fixed when the
/// plan is built, and nothing is read or computed until `run` is called on
/// the file's bytes.
pub struct AggregationPlan {
    column: Vec<u8>,
}

impl AggregationPlan {
    /// The name of the grouping column.
    pub closed spec fn column(self) -> Seq<u8> {
        self.column@
    }

    /// Declares a group-by on `column` with one count per group, sorted
    /// ascending by the column's value.
    pub fn new(column: Vec<u8>) -> (r: AggregationPlan)
        ensures
            r.column() == column@,
    {
        AggregationPlan { column }
    }

    /// Executes the plan over the bytes of a CSV file.
    pub fn run(&self, csv: &Vec<u8>) -> (r: Result<Vec<GroupCount>, AggError>)
        ensures
            (match r {
                Ok(out) => {
                    &&& csv_lines(csv@).len() > 0
                    &&& rows_consistent(csv@)
                    &&& first_match(header_fields(csv@), self.column()) matches Some(ci)
                        && is_aggregation(data_keys(csv@, ci), out@)
                },
                Err(e) => match e {
                    AggError::EmptyInput => csv_lines(csv@).len() == 0,
                    AggError::MissingColumn => csv_lines(csv@).len() > 0 && first_match(
                        header_fields(csv@),
                        self.column(),
                    ) is None,
                    AggError::RaggedRow => csv_lines(csv@).len() > 0 && first_match(
                        header_fields(csv@),
                        self.column(),
                    ) is Some && !rows_consistent(csv@),
                },
            }),
    {
        aggregate(csv, &self.column)
    }
}

} // verus!
