//! The ranker: every record is scored against the current query, the
//! matching ones are sorted by score (descending, stable), duplicates by
//! text are dropped keeping the best-ranked one, and the list is cut to the
//! visible window. Also the store of records itself, built once from raw
//! history lines.
use vstd::prelude::*;

use crate::matcher;
use crate::record;
use crate::record::Command;

verus! {

/// The visible window: how many ranked entries a view holds at most.
pub const NUM_SUGGESTIONS: usize = 15;

/// The records that match the query, in store order, each paired with its
/// score.
pub open spec fn scored_of(records: Seq<Command>, query: Seq<char>) -> Seq<(Command, i64)>
    decreases records.len(),
{
    if records.len() == 0 {
        Seq::<(Command, i64)>::empty()
    } else {
        let rest = scored_of(records.drop_last(), query);
        let sc = matcher::skim_score(records.last().command@, query);
        if sc is Some {
            rest.push((records.last(), sc->Some_0))
        } else {
            rest
        }
    }
}

/// Scores never rise along the sequence.
pub open spec fn sorted_desc(s: Seq<(Command, i64)>) -> bool {
    forall|i: int, j: int| 0 <= i < j < s.len() ==> s[i].1 >= s[j].1
}

/// `x` placed into `s` after every entry scoring at least as much: the
/// insertion step of a stable descending sort.
pub open spec fn insert_desc(s: Seq<(Command, i64)>, x: (Command, i64)) -> Seq<(Command, i64)>
    decreases s.len(),
{
    if s.len() == 0 {
        seq![x]
    } else if s[0].1 >= x.1 {
        seq![s[0]] + insert_desc(s.skip(1), x)
    } else {
        seq![x] + s
    }
}

/// `s` sorted by score descending; entries of equal score keep their
/// relative order, so among ties the earlier record wins.
pub open spec fn sort_desc(s: Seq<(Command, i64)>) -> Seq<(Command, i64)>
    decreases s.len(),
{
    if s.len() == 0 {
        Seq::<(Command, i64)>::empty()
    } else {
        insert_desc(sort_desc(s.drop_last()), s.last())
    }
}

/// The records of a scored sequence, scores stripped.
pub open spec fn commands_of(s: Seq<(Command, i64)>) -> Seq<Command> {
    s.map_values(|p: (Command, i64)| p.0)
}

/// Some record of `s` carries exactly the text `t`.
pub open spec fn contains_text(s: Seq<Command>, t: Seq<char>) -> bool {
    exists|i: int| 0 <= i < s.len() && s[i].command@ == t
}

/// `s` with every record dropped whose text already occurred earlier: the
/// first (best-ranked) record of each distinct text survives.
pub open spec fn dedup_by_text(s: Seq<Command>) -> Seq<Command>
    decreases s.len(),
{
    if s.len() == 0 {
        Seq::<Command>::empty()
    } else {
        let rest = dedup_by_text(s.drop_last());
        if contains_text(s.drop_last(), s.last().command@) {
            rest
        } else {
            rest.push(s.last())
        }
    }
}

/// The full ranking: score, drop non-matches, sort descending stably,
/// deduplicate by text keeping the first occurrence.
pub open spec fn rank_spec(records: Seq<Command>, query: Seq<char>) -> Seq<Command> {
    dedup_by_text(commands_of(sort_desc(scored_of(records, query))))
}

/// The ranked view: the full ranking cut to the visible window.
pub open spec fn rank_view_spec(records: Seq<Command>, query: Seq<char>) -> Seq<Command> {
    if rank_spec(records, query).len() <= NUM_SUGGESTIONS as int {
        rank_spec(records, query)
    } else {
        rank_spec(records, query).take(NUM_SUGGESTIONS as int)
    }
}

/// Inserting into a sorted sequence at the first position whose score is
/// lower lands `x` exactly there, and keeps the sequence sorted.
proof fn lemma_insert_desc_at(s: Seq<(Command, i64)>, x: (Command, i64), j: int)
    requires
        sorted_desc(s),
        0 <= j <= s.len(),
        forall|k: int| 0 <= k < j ==> s[k].1 >= x.1,
        j < s.len() ==> s[j].1 < x.1,
    ensures
        insert_desc(s, x) == s.take(j) + seq![x] + s.skip(j),
        sorted_desc(insert_desc(s, x)),
    decreases j,
{
    if j == 0 {
        if s.len() == 0 {
            assert(insert_desc(s, x) =~= s.take(0) + seq![x] + s.skip(0));
        } else {
            assert(s[0].1 < x.1);
            assert(insert_desc(s, x) =~= s.take(0) + seq![x] + s.skip(0));
        }
    } else {
        assert(s[0].1 >= x.1);
        let tail = s.skip(1);
        assert(sorted_desc(tail)) by {
            assert(forall|a: int, b: int|
                0 <= a < b < tail.len() ==> tail[a] == s[a + 1] && tail[b] == s[b + 1]);
        }
        assert(forall|k: int| 0 <= k < j - 1 ==> tail[k] == s[k + 1]);
        assert(j - 1 < tail.len() ==> tail[j - 1] == s[j]);
        lemma_insert_desc_at(tail, x, j - 1);
        assert(insert_desc(s, x) =~= s.take(j) + seq![x] + s.skip(j)) by {
            assert(insert_desc(s, x) == seq![s[0]] + (tail.take(j - 1) + seq![x] + tail.skip(
                j - 1,
            )));
        }
        let r = s.take(j) + seq![x] + s.skip(j);
        assert(sorted_desc(r)) by {
            assert(forall|k: int| 0 <= k < j ==> r[k] == s[k]);
            assert(r[j] == x);
            assert(forall|k: int| j < k < r.len() ==> r[k] == s[k - 1]);
        }
    }
}

/// Every entry of an insertion is the inserted one or one of the sequence.
proof fn lemma_insert_desc_membership(s: Seq<(Command, i64)>, y: (Command, i64))
    ensures
        forall|k: int|
            0 <= k < insert_desc(s, y).len() ==> (s.contains(insert_desc(s, y)[k]) || insert_desc(
                s,
                y,
            )[k] == y),
    decreases s.len(),
{
    let r = insert_desc(s, y);
    if s.len() == 0 {
    } else if s[0].1 >= y.1 {
        let tail = s.skip(1);
        lemma_insert_desc_membership(tail, y);
        let inner = insert_desc(tail, y);
        assert(forall|k: int| 0 <= k < tail.len() ==> tail[k] == s[k + 1]);
        assert forall|k: int| 0 <= k < r.len() implies (s.contains(r[k]) || r[k] == y) by {
            if k == 0 {
                assert(r[0] == s[0]);
                assert(s.contains(s[0]));
            } else {
                assert(r[k] == inner[k - 1]);
                if tail.contains(inner[k - 1]) {
                    let i = choose|i: int| 0 <= i < tail.len() && tail[i] == inner[k - 1];
                    assert(s[i + 1] == inner[k - 1]);
                    assert(s.contains(r[k]));
                }
            }
        }
    } else {
        assert forall|k: int| 0 <= k < r.len() implies (s.contains(r[k]) || r[k] == y) by {
            if k > 0 {
                assert(r[k] == s[k - 1]);
                assert(s.contains(s[k - 1]));
            }
        }
    }
}

/// Every entry of the sorted sequence is an entry of the original.
proof fn lemma_sort_desc_membership(s: Seq<(Command, i64)>)
    ensures
        forall|k: int| 0 <= k < sort_desc(s).len() ==> s.contains(sort_desc(s)[k]),
    decreases s.len(),
{
    if s.len() > 0 {
        let front = s.drop_last();
        lemma_sort_desc_membership(front);
        let inner = sort_desc(front);
        lemma_insert_desc_membership(inner, s.last());
        assert(forall|i: int| 0 <= i < front.len() ==> front[i] == s[i]);
        assert forall|k: int| 0 <= k < sort_desc(s).len() implies s.contains(sort_desc(s)[k]) by {
            let e = sort_desc(s)[k];
            if inner.contains(e) {
                let i = choose|i: int| 0 <= i < inner.len() && inner[i] == e;
                assert(front.contains(inner[i]));
                let j = choose|j: int| 0 <= j < front.len() && front[j] == inner[i];
                assert(s[j] == e);
                assert(s.contains(e));
            } else {
                assert(e == s.last());
                assert(s[s.len() - 1] == e);
                assert(s.contains(e));
            }
        }
    }
}

/// Every entry of the deduplicated sequence is an entry of the original.
proof fn lemma_dedup_membership(s: Seq<Command>)
    ensures
        forall|k: int| 0 <= k < dedup_by_text(s).len() ==> s.contains(dedup_by_text(s)[k]),
    decreases s.len(),
{
    if s.len() > 0 {
        let front = s.drop_last();
        lemma_dedup_membership(front);
        let rest = dedup_by_text(front);
        let d = dedup_by_text(s);
        assert(forall|i: int| 0 <= i < front.len() ==> front[i] == s[i]);
        assert forall|k: int| 0 <= k < d.len() implies s.contains(d[k]) by {
            if contains_text(front, s.last().command@) || k < d.len() - 1 {
                assert(d[k] == rest[k]);
                assert(front.contains(rest[k]));
                let i = choose|i: int| 0 <= i < front.len() && front[i] == rest[k];
                assert(s[i] == d[k]);
                assert(s.contains(d[k]));
            } else {
                assert(d[k] == s.last());
                assert(s[s.len() - 1] == d[k]);
                assert(s.contains(d[k]));
            }
        }
    }
}

/// Deduplication neither invents nor loses a text: the deduplicated
/// sequence holds a text exactly when the original does.
pub proof fn lemma_dedup_same_texts(s: Seq<Command>, t: Seq<char>)
    ensures
        contains_text(dedup_by_text(s), t) <==> contains_text(s, t),
    decreases s.len(),
{
    if s.len() > 0 {
        let front = s.drop_last();
        let last = s.last();
        let rest = dedup_by_text(front);
        let d = dedup_by_text(s);
        lemma_dedup_same_texts(front, t);
        assert(forall|i: int| 0 <= i < front.len() ==> front[i] == s[i]);
        if contains_text(front, last.command@) {
            assert(d == rest);
            if contains_text(s, t) {
                let i = choose|i: int| 0 <= i < s.len() && s[i].command@ == t;
                if i == s.len() - 1 {
                    assert(last.command@ == t);
                    assert(contains_text(front, t));
                } else {
                    assert(front[i].command@ == t);
                    assert(contains_text(front, t));
                }
            }
            if contains_text(front, t) {
                let k = choose|k: int| 0 <= k < front.len() && front[k].command@ == t;
                assert(s[k].command@ == t);
                assert(contains_text(s, t));
            }
        } else {
            assert(d == rest.push(last));
            assert(forall|i: int| 0 <= i < rest.len() ==> d[i] == rest[i]);
            assert(d[d.len() - 1] == last);
            if contains_text(s, t) {
                let i = choose|i: int| 0 <= i < s.len() && s[i].command@ == t;
                if i == s.len() - 1 {
                    assert(d[d.len() - 1].command@ == t);
                    assert(contains_text(d, t));
                } else {
                    assert(front[i].command@ == t);
                    assert(contains_text(front, t));
                    let k = choose|k: int| 0 <= k < rest.len() && rest[k].command@ == t;
                    assert(d[k].command@ == t);
                    assert(contains_text(d, t));
                }
            }
            if contains_text(d, t) {
                let i = choose|i: int| 0 <= i < d.len() && d[i].command@ == t;
                if i == d.len() - 1 {
                    assert(s[s.len() - 1].command@ == t);
                    assert(contains_text(s, t));
                } else {
                    assert(rest[i].command@ == t);
                    assert(contains_text(rest, t));
                    let k = choose|k: int| 0 <= k < front.len() && front[k].command@ == t;
                    assert(s[k].command@ == t);
                    assert(contains_text(s, t));
                }
            }
        }
    }
}

/// No two entries of a deduplicated sequence carry the same text.
pub proof fn lemma_dedup_unique(s: Seq<Command>)
    ensures
        forall|i: int, j: int|
            0 <= i < j < dedup_by_text(s).len() ==> dedup_by_text(s)[i].command@ != dedup_by_text(
                s,
            )[j].command@,
    decreases s.len(),
{
    if s.len() > 0 {
        let front = s.drop_last();
        lemma_dedup_unique(front);
        let rest = dedup_by_text(front);
        let d = dedup_by_text(s);
        if !contains_text(front, s.last().command@) {
            lemma_dedup_same_texts(front, s.last().command@);
            assert(!contains_text(rest, s.last().command@));
            assert(forall|i: int, j: int|
                0 <= i < j < d.len() ==> d[i].command@ != d[j].command@) by {
                assert(forall|i: int| 0 <= i < rest.len() ==> d[i] == rest[i]);
                assert(d.last() == s.last());
                assert(forall|i: int| 0 <= i < rest.len() ==> rest[i].command@ != s.last().command@);
            }
        }
    }
}

/// Scoring distributes over concatenation: scoring two partitions one after
/// the other equals scoring the whole, so contiguous chunks scored apart
/// and joined in order give the same scored list as one pass.
pub proof fn lemma_scored_of_concat(a: Seq<Command>, b: Seq<Command>, query: Seq<char>)
    ensures
        scored_of(a + b, query) == scored_of(a, query) + scored_of(b, query),
    decreases b.len(),
{
    if b.len() == 0 {
        assert(a + b =~= a);
        assert(scored_of(a, query) + scored_of(b, query) =~= scored_of(a, query));
    } else {
        lemma_scored_of_concat(a, b.drop_last(), query);
        assert((a + b).drop_last() =~= a + b.drop_last());
        assert((a + b).last() == b.last());
        assert(scored_of(a + b, query) =~= scored_of(a, query) + scored_of(b, query));
    }
}

/// Ranking is a function of the records and the query alone: the same pair
/// ranked twice yields the same view.
pub proof fn lemma_rank_idempotent(
    records: Seq<Command>,
    query: Seq<char>,
    r1: Seq<Command>,
    r2: Seq<Command>,
)
    requires
        r1 == rank_view_spec(records, query),
        r2 == rank_view_spec(records, query),
    ensures
        r1 == r2,
{
}

/// The ranked view never shows one text twice, whatever the store held.
pub proof fn lemma_rank_view_deduplicated(records: Seq<Command>, query: Seq<char>)
    ensures
        forall|i: int, j: int|
            0 <= i < j < rank_view_spec(records, query).len() ==> rank_view_spec(
                records,
                query,
            )[i].command@ != rank_view_spec(records, query)[j].command@,
{
    lemma_dedup_unique(commands_of(sort_desc(scored_of(records, query))));
    let full = rank_spec(records, query);
    let v = rank_view_spec(records, query);
    assert(forall|i: int| 0 <= i < v.len() ==> v[i] == full[i]);
}

/// The ranked view never exceeds the visible window.
pub proof fn lemma_rank_view_truncated(records: Seq<Command>, query: Seq<char>)
    ensures
        rank_view_spec(records, query).len() <= NUM_SUGGESTIONS as int,
{
}

/// Scores every record against the query, keeping the matching ones in
/// store order.
pub fn score_commands(commands: &Vec<Command>, query: &String) -> (r: Vec<(Command, i64)>)
    ensures
        r@ == scored_of(commands@, query@),
        forall|k: int|
            0 <= k < r@.len() ==> commands@.contains(r@[k].0) && matcher::skim_matches(
                r@[k].0.command@,
                query@,
            ),
{
    let mut scored: Vec<(Command, i64)> = Vec::new();
    let mut i: usize = 0;
    while i < commands.len()
        invariant
            0 <= i <= commands@.len(),
            scored@ == scored_of(commands@.take(i as int), query@),
            forall|k: int|
                0 <= k < scored@.len() ==> commands@.contains(scored@[k].0)
                    && matcher::skim_matches(scored@[k].0.command@, query@),
        decreases commands@.len() - i,
    {
        let c = &commands[i];
        proof {
            let pre = commands@.take(i as int);
            let pre1 = commands@.take(i + 1);
            assert(pre1.drop_last() =~= pre);
            assert(pre1.last() == commands@[i as int]);
        }
        match c.get_match_score(query) {
            Some(v) => {
                let cc = c.clone();
                scored.push((cc, v));
                proof {
                    assert(scored@.last().0 == commands@[i as int]);
                    assert(commands@.contains(commands@[i as int]));
                }
            },
            None => {},
        }
        i = i + 1;
    }
    proof {
        assert(commands@.take(commands@.len() as int) =~= commands@);
    }
    scored
}

/// Sorts a scored list by score descending; entries of equal score keep
/// their relative order.
pub fn sort_candidates(v: &Vec<(Command, i64)>) -> (r: Vec<(Command, i64)>)
    ensures
        r@ == sort_desc(v@),
        sorted_desc(r@),
{
    let mut sorted: Vec<(Command, i64)> = Vec::new();
    let mut i: usize = 0;
    while i < v.len()
        invariant
            0 <= i <= v@.len(),
            sorted@ == sort_desc(v@.take(i as int)),
            sorted_desc(sorted@),
        decreases v@.len() - i,
    {
        let xc = v[i].0.clone();
        let xs = v[i].1;
        let x = (xc, xs);
        proof {
            assert(x == v@[i as int]);
        }
        let mut j: usize = 0;
        while j < sorted.len() && sorted[j].1 >= xs
            invariant
                0 <= j <= sorted@.len(),
                forall|k: int| 0 <= k < j ==> sorted@[k].1 >= xs,
            decreases sorted@.len() - j,
        {
            j = j + 1;
        }
        proof {
            lemma_insert_desc_at(sorted@, x, j as int);
            let pre = v@.take(i as int);
            let pre1 = v@.take(i + 1);
            assert(pre1.drop_last() =~= pre);
            assert(pre1.last() == v@[i as int]);
        }
        sorted.insert(j, x);
        proof {
            assert(sorted@ =~= sort_desc(v@.take(i as int)).take(j as int) + seq![x] + sort_desc(
                v@.take(i as int),
            ).skip(j as int));
        }
        i = i + 1;
    }
    proof {
        assert(v@.take(v@.len() as int) =~= v@);
    }
    sorted
}

/// True when some record of `v` carries exactly the text of `c`.
fn contains_command_text(v: &Vec<Command>, c: &Command) -> (r: bool)
    ensures
        r == contains_text(v@, c.command@),
{
    let mut i: usize = 0;
    while i < v.len()
        invariant
            0 <= i <= v@.len(),
            forall|k: int| 0 <= k < i ==> v@[k].command@ != c.command@,
        decreases v@.len() - i,
    {
        if v[i].command == c.command {
            return true;
        }
        i = i + 1;
    }
    false
}

/// Drops every entry whose text already occurred earlier in the list.
pub fn dedup_candidates(sorted: &Vec<(Command, i64)>) -> (r: Vec<Command>)
    ensures
        r@ == dedup_by_text(commands_of(sorted@)),
{
    let mut out: Vec<Command> = Vec::new();
    let mut i: usize = 0;
    while i < sorted.len()
        invariant
            0 <= i <= sorted@.len(),
            out@ == dedup_by_text(commands_of(sorted@).take(i as int)),
        decreases sorted@.len() - i,
    {
        let c = &sorted[i].0;
        proof {
            let cs = commands_of(sorted@);
            let pre = cs.take(i as int);
            let pre1 = cs.take(i + 1);
            assert(pre1.drop_last() =~= pre);
            assert(pre1.last() == cs[i as int]);
            assert(cs[i as int] == sorted@[i as int].0);
            lemma_dedup_same_texts(pre, sorted@[i as int].0.command@);
        }
        if !contains_command_text(&out, c) {
            out.push(c.clone());
        }
        i = i + 1;
    }
    proof {
        assert(commands_of(sorted@).take(sorted@.len() as int) =~= commands_of(sorted@));
    }
    out
}

/// A line opens a new history block when its first character is a colon.
pub open spec fn line_starts_block(l: Seq<char>) -> bool {
    l.len() > 0 && l[0] == ':'
}

/// The raw blocks the history lines form: a colon-led line opens a block
/// (the gathered one is emitted first), any other line is appended to the
/// current block with a line break; a last block is emitted only when it is
/// not empty.
pub open spec fn split_blocks(lines: Seq<Seq<char>>, cur: Seq<char>) -> Seq<Seq<char>>
    decreases lines.len(),
{
    if lines.len() == 0 {
        if cur.len() == 0 {
            Seq::<Seq<char>>::empty()
        } else {
            seq![cur]
        }
    } else if line_starts_block(lines[0]) {
        seq![cur] + split_blocks(lines.skip(1), lines[0])
    } else {
        split_blocks(lines.skip(1), cur + lines[0] + seq!['\r', '\n'])
    }
}

/// The (id, text) pairs of the blocks that parse; malformed blocks drop out
/// silently.
pub open spec fn parse_blocks(blocks: Seq<Seq<char>>) -> Seq<(u32, Seq<char>)>
    decreases blocks.len(),
{
    if blocks.len() == 0 {
        Seq::<(u32, Seq<char>)>::empty()
    } else {
        let rest = parse_blocks(blocks.drop_last());
        let b = blocks.last();
        if record::block_parses(b) {
            rest.push((record::block_id(b) as u32, record::block_text(b)))
        } else {
            rest
        }
    }
}

/// The records a sequence of raw history lines yields.
pub open spec fn history_records(lines: Seq<Seq<char>>) -> Seq<(u32, Seq<char>)> {
    parse_blocks(split_blocks(lines, Seq::<char>::empty()))
}

/// The (id, text) pairs a sequence of records carries.
pub open spec fn models_of(s: Seq<Command>) -> Seq<(u32, Seq<char>)> {
    s.map_values(|c: Command| (c.id, c.command@))
}

/// The view of each line of a list of strings.
pub open spec fn views_of(lines: Seq<String>) -> Seq<Seq<char>> {
    lines.map_values(|l: String| l@)
}

/// True when the line opens a new history block.
fn starts_block(l: &String) -> (r: bool)
    ensures
        r == line_starts_block(l@),
{
    let s = l.as_str();
    if s.unicode_len() == 0 {
        false
    } else {
        s.get_char(0) == ':'
    }
}

/// The store of candidate records together with the current query.
#[derive(Debug)]
pub struct Finder {
    pub commands: Vec<Command>,
    pub query: String,
}

impl Finder {
    /// A finder over the given records, starting from the given query.
    pub fn new(commands: Vec<Command>, query: String) -> (r: Finder)
        ensures
            r.commands == commands,
            r.query == query,
    {
        Finder { commands, query }
    }

    /// A finder over the given records, starting from the empty query.
    pub fn new_without_query(commands: Vec<Command>) -> (r: Finder)
        ensures
            r.commands == commands,
            r.query@ == Seq::<char>::empty(),
    {
        Finder::new(commands, String::new())
    }

    /// A finder over the records that the given raw history lines hold,
    /// starting from the empty query: lines are gathered into blocks, each
    /// block parses into a record or is dropped silently.
    pub fn new_with_history_lines(lines: &Vec<String>) -> (r: Finder)
        ensures
            models_of(r.commands@) == history_records(views_of(lines@)),
            r.query@ == Seq::<char>::empty(),
    {
        let ghost all = views_of(lines@);
        let mut blocks: Vec<String> = Vec::new();
        let mut cur: String = String::new();
        let mut i: usize = 0;
        proof {
            assert(all.skip(0) =~= all);
            assert(views_of(blocks@) =~= Seq::<Seq<char>>::empty());
            assert(cur@ == Seq::<char>::empty());
            assert(views_of(blocks@) + split_blocks(all, cur@) =~= split_blocks(
                all,
                Seq::<char>::empty(),
            ));
        }
        while i < lines.len()
            invariant
                0 <= i <= lines@.len(),
                all == views_of(lines@),
                split_blocks(all, Seq::<char>::empty()) == views_of(blocks@) + split_blocks(
                    all.skip(i as int),
                    cur@,
                ),
            decreases lines@.len() - i,
        {
            let l = &lines[i];
            proof {
                let rem = all.skip(i as int);
                assert(rem[0] == all[i as int]);
                assert(all[i as int] == lines@[i as int]@);
                assert(rem.skip(1) =~= all.skip(i + 1));
            }
            if starts_block(l) {
                blocks.push(cur);
                proof {
                    let old_blocks = blocks@.drop_last();
                    assert(views_of(blocks@) =~= views_of(old_blocks).push(blocks@.last()@));
                    assert(views_of(blocks@) + split_blocks(all.skip(i + 1), lines@[i as int]@)
                        =~= views_of(old_blocks) + (seq![blocks@.last()@] + split_blocks(
                        all.skip(i + 1),
                        lines@[i as int]@,
                    )));
                }
                cur = l.clone();
            } else {
                proof {
                    reveal_strlit("\r\n");
                    assert("\r\n"@ =~= seq!['\r', '\n']);
                }
                cur.append(l.as_str());
                cur.append("\r\n");
            }
            i = i + 1;
        }
        proof {
            assert(all.skip(lines@.len() as int) =~= Seq::<Seq<char>>::empty());
        }
        let ghost prev_blocks = blocks@;
        let ghost curv = cur@;
        if !cur.as_str().is_empty() {
            blocks.push(cur);
            proof {
                assert(views_of(blocks@) =~= views_of(prev_blocks).push(curv));
                assert(split_blocks(Seq::<Seq<char>>::empty(), curv) =~= seq![curv]);
                assert(views_of(prev_blocks) + seq![curv] =~= views_of(prev_blocks).push(curv));
                assert(split_blocks(all, Seq::<char>::empty()) =~= views_of(blocks@));
            }
        } else {
            proof {
                assert(split_blocks(Seq::<Seq<char>>::empty(), curv) =~= Seq::<Seq<char>>::empty());
                assert(views_of(blocks@) + split_blocks(
                    Seq::<Seq<char>>::empty(),
                    curv,
                ) =~= views_of(blocks@));
                assert(split_blocks(all, Seq::<char>::empty()) =~= views_of(blocks@));
            }
        }
        let bviews = Ghost(views_of(blocks@));
        let mut cmds: Vec<Command> = Vec::new();
        let mut k: usize = 0;
        while k < blocks.len()
            invariant
                0 <= k <= blocks@.len(),
                bviews@ == views_of(blocks@),
                models_of(cmds@) == parse_blocks(bviews@.take(k as int)),
            decreases blocks@.len() - k,
        {
            let b = &blocks[k];
            proof {
                let pre = bviews@.take(k as int);
                let pre1 = bviews@.take(k + 1);
                assert(pre1.drop_last() =~= pre);
                assert(pre1.last() == bviews@[k as int]);
                assert(bviews@[k as int] == blocks@[k as int]@);
                if record::block_parses(b@) {
                    crate::text::lemma_digits_val_nonneg(b@.subrange(2, 12));
                }
            }
            match Command::from_string(b.as_str()) {
                Ok(c) => {
                    cmds.push(c);
                    proof {
                        assert(models_of(cmds@) =~= models_of(cmds@.drop_last()).push(
                            (cmds@.last().id, cmds@.last().command@),
                        ));
                        assert(cmds@.drop_last() =~= cmds@.take(cmds@.len() - 1));
                    }
                },
                Err(_) => {},
            }
            k = k + 1;
        }
        proof {
            assert(bviews@.take(blocks@.len() as int) =~= bviews@);
            assert(models_of(cmds@) == parse_blocks(views_of(blocks@)));
            assert(history_records(views_of(lines@)) == parse_blocks(
                split_blocks(all, Seq::<char>::empty()),
            ));
        }
        Finder::new_without_query(cmds)
    }

    /// Replaces the current query; the records stay as they are.
    pub fn update_query(&mut self, new_query: String)
        ensures
            final(self).query == new_query,
            final(self).commands == old(self).commands,
    {
        self.query = new_query
    }

    /// The full ranking of the records against the query: matching records
    /// only, by score descending (ties keep store order), one entry per
    /// distinct text. Every entry comes from the store and has the query as
    /// a smart-case subsequence of its text.
    pub fn get_matched_commands(commands: &Vec<Command>, query: &String) -> (r: Vec<Command>)
        ensures
            r@ == rank_spec(commands@, query@),
            forall|k: int|
                0 <= k < r@.len() ==> commands@.contains(r@[k]) && matcher::skim_matches(
                    r@[k].command@,
                    query@,
                ),
    {
        let scored = score_commands(commands, query);
        let sorted = sort_candidates(&scored);
        let r = dedup_candidates(&sorted);
        proof {
            lemma_sort_desc_membership(scored@);
            lemma_dedup_membership(commands_of(sorted@));
            let cs = commands_of(sorted@);
            assert forall|k: int|
                0 <= k < r@.len() implies commands@.contains(r@[k]) && matcher::skim_matches(
                r@[k].command@,
                query@,
            ) by {
                assert(cs.contains(r@[k]));
                let i = choose|i: int| 0 <= i < cs.len() && cs[i] == r@[k];
                assert(sorted@[i].0 == r@[k]);
                assert(scored@.contains(sorted@[i]));
                let j = choose|j: int| 0 <= j < scored@.len() && scored@[j] == sorted@[i];
                assert(scored@[j].0 == r@[k]);
            }
        }
        r
    }

    /// The ranked view: the full ranking cut to the visible window, so at
    /// most `NUM_SUGGESTIONS` entries, each from the store and matching the
    /// query.
    pub fn get_truncated_matches(commands: &Vec<Command>, query: &String) -> (r: Vec<Command>)
        ensures
            r@ == rank_view_spec(commands@, query@),
            r@.len() <= NUM_SUGGESTIONS as int,
            forall|k: int|
                0 <= k < r@.len() ==> commands@.contains(r@[k]) && matcher::skim_matches(
                    r@[k].command@,
                    query@,
                ),
    {
        let mut matches = Finder::get_matched_commands(commands, query);
        let ghost full = matches@;
        if matches.len() > NUM_SUGGESTIONS {
            matches.truncate(NUM_SUGGESTIONS);
            proof {
                assert(matches@ =~= full.take(NUM_SUGGESTIONS as int));
                assert(forall|k: int| 0 <= k < matches@.len() ==> matches@[k] == full[k]);
            }
        }
        matches
    }

    /// The text of the entry at the selection, or the empty string when the
    /// selection points past the end (in particular on an empty view).
    pub fn get_selecting_command(commands: &Vec<Command>, selecting_cmd: usize) -> (r: String)
        ensures
            selecting_cmd < commands@.len() ==> r@ == commands@[selecting_cmd as int].command@,
            selecting_cmd >= commands@.len() ==> r@ == Seq::<char>::empty(),
    {
        if selecting_cmd < commands.len() {
            commands[selecting_cmd].command.clone()
        } else {
            String::new()
        }
    }
}

} // verus!
