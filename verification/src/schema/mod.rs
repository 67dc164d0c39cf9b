//! Schema inference: union of seen fields with per-field stats.
//!
//! - **Union, not last-N.** Columns are stable in a session: a field that
//!   disappears becomes an empty cell, never a removed column.
//! - **Warmup-lock.** A file's schema locks after `min(10_000, total)` lines.

use vstd::prelude::*;

use crate::json;
use crate::order;
use crate::order::Ranked;
use crate::string_map;
use crate::string_map::StringMap;
use crate::text;

verus! {

/// Default warmup window for file sources.
pub const FILE_WARMUP_LINES: usize = 10_000;

/// The verbatim value text of a member of a line's JSON object.
pub open spec fn raw_field(line: Seq<u8>, name: Seq<char>) -> Option<Seq<char>> {
    match json::object_members(line) {
        Some(m) => json::member(m, name),
        None => None,
    }
}

/// Extract one field's raw JSON text from a line, or `None` if not present.
pub fn project_field<'a>(line_bytes: &'a [u8], field: &str) -> (r: Option<&'a str>)
    ensures
        match r {
            Some(v) => raw_field(line_bytes@, field@) == Some(v@),
            None => raw_field(line_bytes@, field@) is None,
        },
{
    match json::parse_object(line_bytes) {
        Some(m) => json::find_member(&m, field),
        None => None,
    }
}

/// `raw` without the double quotes that enclose it, if they do.
pub open spec fn unquoted_text(raw: Seq<char>) -> Seq<char> {
    if raw.len() >= 2 && raw[0] == '"' && raw[raw.len() - 1] == '"' {
        raw.subrange(1, raw.len() - 1)
    } else {
        raw
    }
}

/// Strip enclosing quotes if the raw JSON is a string literal, without
/// unescaping. Non-string values come back unchanged.
pub fn unquote_if_string<'a>(raw: &'a str) -> (r: &'a str)
    ensures
        r@ == unquoted_text(raw@),
{
    let n: usize = raw.unicode_len();
    if n >= 2 && raw.get_char(0) == '"' && raw.get_char(n - 1) == '"' {
        raw.substring_char(1, n - 1)
    } else {
        raw
    }
}

/// Per-field running stats during warmup.
#[derive(Debug, Clone, Copy, PartialEq, Eq, Structural)]
pub struct FieldStats {
    /// Records that carry the field.
    pub presence: u64,
    /// Every value seen so far was a JSON string.
    pub all_strings: bool,
}

impl Default for FieldStats {
    fn default() -> (r: Self)
        ensures
            r.presence == 0,
            !r.all_strings,
    {
        FieldStats { presence: 0, all_strings: false }
    }
}

/// A raw value is a JSON string.
pub open spec fn is_string(raw: Seq<char>) -> bool {
    text::enc(raw).len() > 0 && text::enc(raw)[0] == '"' as u8
}

/// A field's stats after one more value.
pub open spec fn ticked(old: Option<FieldStats>, raw: Seq<char>) -> FieldStats {
    match old {
        Some(st) => FieldStats {
            presence: (st.presence + 1) as u64,
            all_strings: st.all_strings && is_string(raw),
        },
        None => FieldStats { presence: 1, all_strings: is_string(raw) },
    }
}

pub open spec fn lookup(fields: Map<Seq<char>, FieldStats>, name: Seq<char>) -> Option<FieldStats> {
    if fields.contains_key(name) {
        Some(fields[name])
    } else {
        None
    }
}

/// The stats after every member of one object has been counted.
pub open spec fn counting_members(
    fields: Map<Seq<char>, FieldStats>,
    m: json::Members,
) -> Map<Seq<char>, FieldStats>
    decreases m.len(),
{
    if m.len() == 0 {
        fields
    } else {
        let before = counting_members(fields, m.drop_last());
        before.insert(m.last().0, ticked(lookup(before, m.last().0), m.last().1))
    }
}

/// The stats after one line; a line that is no JSON object adds nothing.
pub open spec fn counting_line(
    fields: Map<Seq<char>, FieldStats>,
    line: Seq<u8>,
) -> Map<Seq<char>, FieldStats> {
    match json::object_members(line) {
        Some(m) => counting_members(fields, m),
        None => fields,
    }
}

/// The stats of a run of lines.
pub open spec fn counting_lines(lines: Seq<Seq<u8>>) -> Map<Seq<char>, FieldStats>
    decreases lines.len(),
{
    if lines.len() == 0 {
        Map::empty()
    } else {
        counting_line(counting_lines(lines.drop_last()), lines.last())
    }
}

/// Counting members of distinct names touches no other field, and raises each
/// of theirs by one.
proof fn lemma_counting_members(fields: Map<Seq<char>, FieldStats>, m: json::Members, bound: u64)
    requires
        json::distinct_names(m),
        bound < u64::MAX,
        forall|k: Seq<char>| #[trigger] fields.contains_key(k) ==> fields[k].presence <= bound,
    ensures
        forall|k: Seq<char>| #[trigger]
            counting_members(fields, m).contains_key(k) ==> counting_members(fields, m)[k].presence
                <= bound + 1,
        forall|k: Seq<char>|
            (forall|i: int| 0 <= i < m.len() ==> (#[trigger] m[i]).0 != k) ==> #[trigger] lookup(
                counting_members(fields, m),
                k,
            ) == lookup(fields, k),
    decreases m.len(),
{
    if m.len() > 0 {
        let rest = m.drop_last();
        assert forall|i: int, j: int| 0 <= i < j < rest.len() implies (#[trigger] rest[i]).0
            != (#[trigger] rest[j]).0 by {
            assert(m[i].0 != m[j].0);
        }
        lemma_counting_members(fields, rest, bound);
        let name = m.last().0;
        assert forall|i: int| 0 <= i < rest.len() implies (#[trigger] rest[i]).0 != name by {
            assert(m[i].0 != m[m.len() - 1].0);
        }
        assert(lookup(counting_members(fields, rest), name) == lookup(fields, name));
        assert forall|k: Seq<char>|
            (forall|i: int| 0 <= i < m.len() ==> (#[trigger] m[i]).0 != k) implies #[trigger] lookup(
            counting_members(fields, m),
            k,
        ) == lookup(fields, k) by {
            assert(m[m.len() - 1].0 != k);
            assert forall|i: int| 0 <= i < rest.len() implies (#[trigger] rest[i]).0 != k by {
                assert(m[i].0 != k);
            }
            assert(lookup(counting_members(fields, rest), k) == lookup(fields, k));
        }
    }
}

#[derive(Debug)]
pub struct SchemaBuilder {
    pub fields: StringMap<FieldStats>,
    pub records_scanned: u64,
    pub locked: bool,
}

impl Default for SchemaBuilder {
    fn default() -> (r: Self)
        ensures
            r.wf(),
            r.fields@ == Map::<Seq<char>, FieldStats>::empty(),
            r.records_scanned == 0,
            !r.locked,
    {
        SchemaBuilder { fields: StringMap::new(), records_scanned: 0, locked: false }
    }
}

impl SchemaBuilder {
    /// No field was seen in more records than were scanned.
    pub open spec fn wf(self) -> bool {
        &&& self.fields.wf()
        &&& forall|k: Seq<char>| #[trigger]
            self.fields@.contains_key(k) ==> self.fields@[k].presence <= self.records_scanned
    }

    pub fn new() -> (r: Self)
        ensures
            r.wf(),
            r.fields@ == Map::<Seq<char>, FieldStats>::empty(),
            r.records_scanned == 0,
            !r.locked,
    {
        SchemaBuilder::default()
    }

    /// Count the members of one object.
    pub fn scan_members(&mut self, members: &Vec<(&str, &str)>)
        requires
            old(self).fields.wf(),
            json::distinct_names(json::members_view(members@)),
            forall|k: Seq<char>| #[trigger]
                old(self).fields@.contains_key(k) ==> old(self).fields@[k].presence < u64::MAX,
        ensures
            final(self).fields.wf(),
            final(self).fields@ == counting_members(
                old(self).fields@,
                json::members_view(members@),
            ),
            final(self).records_scanned == old(self).records_scanned,
            final(self).locked == old(self).locked,
    {
        let ghost m = json::members_view(members@);
        let ghost start = self.fields@;
        let mut i: usize = 0;
        assert(m.take(0) =~= Seq::empty());
        while i < members.len()
            invariant
                i <= members@.len(),
                m == json::members_view(members@),
                json::distinct_names(m),
                self.fields.wf(),
                self.fields@ == counting_members(start, m.take(i as int)),
                self.records_scanned == old(self).records_scanned,
                self.locked == old(self).locked,
                forall|k: Seq<char>| #[trigger]
                    start.contains_key(k) ==> start[k].presence < u64::MAX,
            decreases members@.len() - i,
        {
            let name: &str = members[i].0;
            let raw: &str = members[i].1;
            proof {
                let done = m.take(i as int);
                assert(m.take(i + 1).drop_last() =~= done);
                assert(m.take(i + 1).last() == (name@, raw@));
                assert forall|a: int, b: int| 0 <= a < b < done.len() implies (
                #[trigger] done[a]).0 != (#[trigger] done[b]).0 by {
                    assert(m[a].0 != m[b].0);
                }
                assert forall|k: int| 0 <= k < done.len() implies (#[trigger] done[k]).0
                    != name@ by {
                    assert(m[k].0 != m[i as int].0);
                }
                lemma_counting_members(start, done, (u64::MAX - 1) as u64);
                assert(lookup(self.fields@, name@) == lookup(start, name@));
            }
            let text: &[u8] = raw.as_bytes();
            let string: bool = text.len() > 0 && text[0] == '"' as u8;
            let entry: FieldStats = match self.fields.get(name) {
                Some(st) => FieldStats {
                    presence: st.presence + 1,
                    all_strings: st.all_strings && string,
                },
                None => FieldStats { presence: 1, all_strings: string },
            };
            self.fields.insert(name, entry);
            i = i + 1;
        }
        assert(m.take(m.len() as int) =~= m);
    }

    /// Walk a top-level JSON object and tick presence for each key. Silently
    /// no-op on non-JSON or non-object lines.
    pub fn scan(&mut self, line_bytes: &[u8])
        requires
            old(self).wf(),
            old(self).locked || old(self).records_scanned < u64::MAX,
        ensures
            final(self).wf(),
            final(self).locked == old(self).locked,
            old(self).locked ==> *final(self) == *old(self),
            !old(self).locked ==> {
                &&& final(self).records_scanned == old(self).records_scanned + 1
                &&& final(self).fields@ == counting_line(old(self).fields@, line_bytes@)
            },
    {
        if self.locked {
            return;
        }
        self.records_scanned = self.records_scanned + 1;
        match json::parse_object(line_bytes) {
            Some(m) => {
                proof {
                    lemma_counting_members(
                        old(self).fields@,
                        json::members_view(m@),
                        old(self).records_scanned,
                    );
                }
                self.scan_members(&m);
            },
            None => {},
        }
    }

    /// Freeze the schema: fields by presence descending, then by name.
    pub fn lock(self) -> (r: LockedSchema)
        requires
            self.wf(),
        ensures
            r.records_scanned == self.records_scanned,
            r.wf(),
            string_map::map_of(r.ordered_fields@) == self.fields@,
    {
        let entries: Vec<(String, FieldStats)> = self.fields.into_entries();
        let ordered: Vec<(String, FieldStats)> = order::sort(entries);
        proof {
            string_map::lemma_permuted(entries@, ordered@);
        }
        LockedSchema { ordered_fields: ordered, records_scanned: self.records_scanned }
    }
}

impl Ranked for (String, FieldStats) {
    open spec fn may_precede(self, other: Self) -> bool {
        self.1.presence > other.1.presence || (self.1.presence == other.1.presence
            && !order::lex_less(text::enc(other.0@), text::enc(self.0@)))
    }

    proof fn total(a: Self, b: Self) {
        order::lemma_lex_total(text::enc(a.0@), text::enc(b.0@));
    }

    proof fn transitive(a: Self, b: Self, c: Self) {
        let (x, y, z) = (text::enc(a.0@), text::enc(b.0@), text::enc(c.0@));
        order::lemma_lex_total(x, y);
        order::lemma_lex_total(y, z);
        order::lemma_lex_total(x, z);
        if order::lex_less(z, x) {
            if order::lex_less(x, y) {
                order::lemma_lex_transitive(z, x, y);
            }
        }
    }

    fn at_most(&self, other: &Self) -> (r: bool) {
        self.1.presence > other.1.presence || (self.1.presence == other.1.presence
            && !order::lex_before(other.0.as_str().as_bytes(), self.0.as_str().as_bytes()))
    }
}

#[derive(Debug)]
pub struct LockedSchema {
    /// Field name and stats, by presence descending, then by name.
    pub ordered_fields: Vec<(String, FieldStats)>,
    pub records_scanned: u64,
}

impl Default for LockedSchema {
    fn default() -> (r: Self)
        ensures
            r.ordered_fields@.len() == 0,
            r.records_scanned == 0,
    {
        LockedSchema { ordered_fields: Vec::new(), records_scanned: 0 }
    }
}

/// A field gets an automatic column.
pub open spec fn is_column(name: Seq<char>) -> bool {
    name != "ts"@ && name != "level"@
}

/// The field names that get a column, in order.
pub open spec fn column_names(fields: Seq<(String, FieldStats)>) -> Seq<Seq<char>>
    decreases fields.len(),
{
    if fields.len() == 0 {
        Seq::empty()
    } else {
        let before = column_names(fields.drop_last());
        if is_column(fields.last().0@) {
            before.push(fields.last().0@)
        } else {
            before
        }
    }
}

/// There are at most as many columns as fields.
pub proof fn lemma_column_count(fields: Seq<(String, FieldStats)>)
    ensures
        column_names(fields).len() <= fields.len(),
    decreases fields.len(),
{
    if fields.len() > 0 {
        lemma_column_count(fields.drop_last());
    }
}

impl LockedSchema {
    /// Fields are listed once each, in rank order.
    pub open spec fn wf(self) -> bool {
        string_map::distinct(self.ordered_fields@) && order::sorted(self.ordered_fields@)
    }

    /// Pick the top column names. `ts` and `level` are left out: they have
    /// columns of their own.
    pub fn auto_columns(&self, max: usize) -> (r: Vec<String>)
        ensures
            text::texts(r@) == picked_columns(*self, max as int),
    {
        let ghost fields = self.ordered_fields@;
        let mut out: Vec<String> = Vec::new();
        let mut i: usize = 0;
        assert(fields.take(0) =~= Seq::empty());
        assert(text::texts(out@) =~= Seq::empty());
        while i < self.ordered_fields.len()
            invariant
                i <= fields.len(),
                fields == self.ordered_fields@,
                text::texts(out@) == column_names(fields.take(i as int)),
            decreases fields.len() - i,
        {
            assert(fields.take(i + 1).drop_last() =~= fields.take(i as int));
            let name: &str = self.ordered_fields[i].0.as_str();
            let ghost before = out@;
            if !text::str_eq(name, "ts") && !text::str_eq(name, "level") {
                out.push(name.to_owned());
                assert(text::texts(out@) =~= text::texts(before).push(name@));
            }
            i = i + 1;
        }
        assert(fields.take(fields.len() as int) =~= fields);
        let ghost all = out@;
        out.truncate(max);
        proof {
            if max < all.len() {
                assert(text::texts(out@) =~= text::texts(all).take(max as int));
            }
        }
        out
    }
}

/// A locked schema lists its fields by how many records carry them: the counts
/// never rise, and fields with one count stand in byte order of their names.
pub proof fn law_counts_never_rise(schema: LockedSchema, i: int, j: int)
    requires
        schema.wf(),
        0 <= i < j < schema.ordered_fields@.len(),
    ensures
        ({
            let (a, b) = (schema.ordered_fields@[i], schema.ordered_fields@[j]);
            &&& a.1.presence >= b.1.presence
            &&& a.1.presence == b.1.presence ==> order::lex_less(text::enc(a.0@), text::enc(b.0@))
        }),
{
    let (a, b) = (schema.ordered_fields@[i], schema.ordered_fields@[j]);
    assert(a.may_precede(b));
    assert(a.0@ != b.0@);
    order::lemma_lex_total(text::enc(a.0@), text::enc(b.0@));
    text::lemma_encoding_injective(a.0@, b.0@);
}

/// How many of `n` records a scan reads.
pub open spec fn warmup_len(n: int) -> int {
    if n < FILE_WARMUP_LINES {
        n
    } else {
        FILE_WARMUP_LINES as int
    }
}

/// The first record that a scan of the middle reads.
pub open spec fn warmup_start(n: int) -> int {
    (n - warmup_len(n)) / 2
}

/// A scan reads at most ten thousand records. One of the middle leaves out as
/// many before them as behind them, or one fewer.
pub proof fn law_warmup_is_the_middle(n: int)
    requires
        0 <= n,
    ensures
        n <= 10_000 ==> warmup_len(n) == n && warmup_start(n) == 0,
        n > 10_000 ==> warmup_len(n) == 10_000,
        ({
            let before = warmup_start(n);
            let behind = n - before - warmup_len(n);
            0 <= before <= behind <= before + 1
        }),
{
}

/// The columns that are picked, of at most `max`.
pub open spec fn picked_columns(schema: LockedSchema, max: int) -> Seq<Seq<char>> {
    let all = column_names(schema.ordered_fields@);
    if max < all.len() {
        all.take(max)
    } else {
        all
    }
}

/// Each column is a field, and they stand in the fields' order.
proof fn lemma_column_at(fields: Seq<(String, FieldStats)>, c: int) -> (i: int)
    requires
        0 <= c < column_names(fields).len(),
    ensures
        0 <= i < fields.len(),
        fields[i].0@ == column_names(fields)[c],
        is_column(fields[i].0@),
        column_names(fields.take(i)).len() == c,
    decreases fields.len(),
{
    let prev = fields.drop_last();
    let last = fields.len() - 1;
    if is_column(fields[last].0@) && c == column_names(prev).len() {
        assert(fields.take(last) =~= prev);
        last
    } else {
        let i = lemma_column_at(prev, c);
        assert(prev[i] == fields[i]);
        assert(prev.take(i) =~= fields.take(i));
        i
    }
}

/// A field that can be a column stands among them at the number of such fields
/// before it.
proof fn lemma_column_of(fields: Seq<(String, FieldStats)>, i: int)
    requires
        0 <= i < fields.len(),
        is_column(fields[i].0@),
    ensures
        column_names(fields.take(i)).len() < column_names(fields).len(),
        column_names(fields)[column_names(fields.take(i)).len() as int] == fields[i].0@,
    decreases fields.len(),
{
    let prev = fields.drop_last();
    let last = fields.len() - 1;
    if i == last {
        assert(fields.take(last) =~= prev);
    } else {
        lemma_column_of(prev, i);
        assert(prev.take(i) =~= fields.take(i));
    }
}

proof fn lemma_columns_grow(fields: Seq<(String, FieldStats)>, i: int, j: int)
    requires
        0 <= i <= j <= fields.len(),
    ensures
        column_names(fields.take(i)).len() <= column_names(fields.take(j)).len(),
    decreases j - i,
{
    if i < j {
        lemma_columns_grow(fields, i, j - 1);
        assert(fields.take(j).drop_last() =~= fields.take(j - 1));
    }
}

/// The automatic columns are the most common fields: `ts` and `level` are
/// never among them, and no other field that was left out is carried by more
/// records than one that was picked. As many are picked as there are, up to
/// the limit.
pub proof fn law_columns_are_the_most_common(schema: LockedSchema, max: int, p: int, q: int)
    requires
        schema.wf(),
        0 <= max,
        0 <= p < schema.ordered_fields@.len(),
        0 <= q < schema.ordered_fields@.len(),
        picked_columns(schema, max).contains(schema.ordered_fields@[p].0@),
    ensures
        schema.ordered_fields@[p].0@ != "ts"@,
        schema.ordered_fields@[p].0@ != "level"@,
        ({
            let left_out = schema.ordered_fields@[q].0@;
            left_out != "ts"@ && left_out != "level"@ && !picked_columns(schema, max).contains(
                left_out,
            ) ==> {
                &&& schema.ordered_fields@[p].1.presence >= schema.ordered_fields@[q].1.presence
                &&& picked_columns(schema, max).len() == max
            }
        }),
{
    let fields = schema.ordered_fields@;
    let picked = picked_columns(schema, max);
    let all = column_names(fields);
    let c = choose|c: int| 0 <= c < picked.len() && picked[c] == fields[p].0@;
    assert(all[c] == picked[c]);
    let i = lemma_column_at(fields, c);
    if i != p {
        if i < p {
            assert(fields[i].0@ != fields[p].0@);
        } else {
            assert(fields[p].0@ != fields[i].0@);
        }
    }
    let out = fields[q].0@;
    if is_column(out) && !picked.contains(out) {
        lemma_column_of(fields, q);
        let d = column_names(fields.take(q)).len() as int;
        if d < picked.len() {
            assert(picked[d] == all[d]);
            assert(picked.contains(out));
        }
        if q < p {
            lemma_columns_grow(fields, q, p);
        } else if p < q {
            law_counts_never_rise(schema, p, q);
        }
    }
}

/// The lines carry one object each, none of whose names repeat.
pub open spec fn well_named(lines: Seq<Seq<u8>>) -> bool {
    forall|i: int|
        0 <= i < lines.len() ==> (json::object_members(#[trigger] lines[i]) matches Some(m)
            ==> json::distinct_names(m))
}

/// Counting the members of one object: a field that it has goes up by one, and
/// stays a field of strings if its value is one.
proof fn lemma_counted_member(fields: Map<Seq<char>, FieldStats>, m: json::Members, name: Seq<char>)
    requires
        json::distinct_names(m),
        lookup(fields, name) matches Some(st) ==> st.presence < u64::MAX,
    ensures
        match json::member(m, name) {
            Some(raw) => lookup(counting_members(fields, m), name) == Some(
                ticked(lookup(fields, name), raw),
            ),
            None => lookup(counting_members(fields, m), name) == lookup(fields, name),
        },
    decreases m.len(),
{
    if m.len() > 0 {
        let rest = m.drop_last();
        assert forall|i: int, j: int| 0 <= i < j < rest.len() implies (#[trigger] rest[i]).0
            != (#[trigger] rest[j]).0 by {
            assert(m[i].0 != m[j].0);
        }
        lemma_counted_member(fields, rest, name);
        lemma_member_of_rest(m, name, 0);
    }
}

proof fn lemma_member_of_rest(m: json::Members, name: Seq<char>, i: int)
    requires
        json::distinct_names(m),
        m.len() > 0,
        0 <= i < m.len(),
    ensures
        json::member_from(m, name, i) == (if m.last().0 == name {
            Some(m.last().1)
        } else {
            json::member_from(m.drop_last(), name, i)
        }),
        m.last().0 == name ==> json::member_from(m.drop_last(), name, i) is None,
    decreases m.len() - i,
{
    if i < m.len() - 1 {
        lemma_member_of_rest(m, name, i + 1);
        assert(m.drop_last()[i] == m[i]);
        assert(m[i].0 != m[m.len() - 1].0);
    } else {
        assert(json::member_from(m, name, i + 1) is None);
    }
}

/// A field's count is the number of lines whose object carries it, and it is a
/// field of strings when each of those values is one. A line that is no object
/// carries nothing.
pub proof fn law_presence_counts_lines(lines: Seq<Seq<u8>>, name: Seq<char>)
    requires
        well_named(lines),
        lines.len() < u64::MAX,
    ensures
        match lookup(counting_lines(lines), name) {
            Some(st) => {
                &&& st.presence == lines.filter(|l: Seq<u8>| raw_field(l, name) is Some).len()
                &&& st.presence > 0
                &&& st.all_strings == (forall|i: int|
                    0 <= i < lines.len() && raw_field(#[trigger] lines[i], name) is Some
                        ==> is_string(raw_field(lines[i], name)->0))
            },
            None => forall|i: int|
                0 <= i < lines.len() ==> raw_field(#[trigger] lines[i], name) is None,
        },
        lines.filter(|l: Seq<u8>| raw_field(l, name) is Some).len() <= lines.len(),
        lookup(counting_lines(lines), name) is None ==> lines.filter(
            |l: Seq<u8>| raw_field(l, name) is Some,
        ).len() == 0,
    decreases lines.len(),
{
    reveal(Seq::filter);
    if lines.len() > 0 {
        let prev = lines.drop_last();
        let last = lines.len() - 1;
        assert forall|i: int| 0 <= i < prev.len() implies (json::object_members(
            #[trigger] prev[i],
        ) matches Some(m) ==> json::distinct_names(m)) by {
            assert(prev[i] == lines[i]);
        }
        law_presence_counts_lines(prev, name);
        assert(forall|i: int| 0 <= i < prev.len() ==> prev[i] == #[trigger] lines[i]);
        if let Some(m) = json::object_members(lines[last]) {
            lemma_counted_member(counting_lines(prev), m, name);
        }
        let st = lookup(counting_lines(lines), name);
        if st is Some {
            let before = lookup(counting_lines(prev), name);
            if before is Some && !before->0.all_strings {
                let i = choose|i: int|
                    0 <= i < prev.len() && raw_field(#[trigger] prev[i], name) is Some
                        && !is_string(raw_field(prev[i], name)->0);
                assert(lines[i] == prev[i]);
            }
        }
    }
}

/// A field keeps to strings as long as every value starts with a quote, and
/// each value is one more.
pub proof fn law_one_more_value(old: Option<FieldStats>, raw: Seq<char>)
    requires
        old matches Some(st) ==> st.presence < u64::MAX,
    ensures
        ticked(old, raw).presence == (match old {
            Some(st) => st.presence + 1,
            None => 1int,
        }),
        ticked(old, raw).all_strings <==> (old matches Some(st) ==> st.all_strings) && text::enc(
            raw,
        ).len() > 0 && text::enc(raw)[0] == '"' as u8,
{
}

/// A value loses the two quotes around it, and nothing else.
pub proof fn law_quotes_are_taken_off(s: Seq<char>, c: char)
    ensures
        unquoted_text(seq!['"'] + s + seq!['"']) == s,
        c != '"' ==> unquoted_text(seq![c] + s) == seq![c] + s,
        c != '"' ==> unquoted_text(s.push(c)) == s.push(c),
{
    let quoted = seq!['"'] + s + seq!['"'];
    assert(quoted.subrange(1, quoted.len() - 1) =~= s);
}

} // verus!
