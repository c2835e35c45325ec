use crate::error::{DatabaseError, ErrorKind};
use crate::text::{
    chars_of, decimal_string, decimal_text, find_char, find_from, has_no,
    lemma_decimal_round_trip, lemma_find_char, lemma_find_char_at, lemma_split_lines_cons,
    lines_of, parse_decimal, parse_u64, split_lines,
};
use std::collections::HashMap;
use vstd::prelude::*;
use vstd::std_specs::hash::{spec_hash_map_iter, spec_keys_iter};
use vstd::std_specs::iter::IteratorSpec;
use vstd::string::*;

verus! {

broadcast use vstd::std_specs::hash::group_hash_axioms;

/// What a snapshot holds, as plain values.
pub open spec fn contents(m: Map<u64, String>) -> Map<u64, Seq<char>> {
    m.map_values(|s: String| s@)
}

/// One checkpoint line: a decimal id, then the content after the first comma.
pub open spec fn parse_entry(line: Seq<char>) -> Option<(u64, Seq<char>)> {
    let i = find_char(line, ',') as int;
    if i >= line.len() {
        None
    } else {
        match parse_decimal(line.subrange(0, i)) {
            Some(id) => Some((id, line.subrange(i + 1, line.len() as int))),
            None => None,
        }
    }
}

/// The snapshot that checkpoint lines describe: empty lines are skipped and a
/// later line for a key replaces an earlier one; none where a line is malformed.
pub open spec fn checkpoint_of_lines(lines: Seq<Seq<char>>) -> Option<Map<u64, Seq<char>>>
    decreases lines.len(),
{
    if lines.len() == 0 {
        Some(Map::empty())
    } else {
        match checkpoint_of_lines(lines.drop_last()) {
            None => None,
            Some(m) => if lines.last().len() == 0 {
                Some(m)
            } else {
                match parse_entry(lines.last()) {
                    Some(e) => Some(m.insert(e.0, e.1)),
                    None => None,
                }
            },
        }
    }
}

/// The snapshot that a checkpoint file's text describes.
pub open spec fn parse_checkpoint_spec(text: Seq<char>) -> Option<Map<u64, Seq<char>>> {
    checkpoint_of_lines(split_lines(text))
}

/// The checkpoint line of one entry, without its newline.
pub open spec fn entry_line(e: (u64, Seq<char>)) -> Seq<char> {
    decimal_text(e.0 as nat) + seq![','] + e.1
}

/// The checkpoint text of entries written in the given order, one line each.
pub open spec fn checkpoint_text(es: Seq<(u64, Seq<char>)>) -> Seq<char>
    decreases es.len(),
{
    if es.len() == 0 {
        Seq::empty()
    } else {
        checkpoint_text(es.drop_last()) + entry_line(es.last()) + seq!['\n']
    }
}

/// `es` lists the entries of `m`, each once: every entry is one of `m`, every
/// key of `m` has an entry, and no key has two.
pub open spec fn lists(es: Seq<(u64, Seq<char>)>, m: Map<u64, Seq<char>>) -> bool {
    &&& forall|i: int| 0 <= i < es.len() ==> #[trigger] m.contains_key(es[i].0) && m[es[i].0] == es[i].1
    &&& forall|k: u64| #[trigger]
        m.contains_key(k) ==> exists|i: int| 0 <= i < es.len() && es[i].0 == k
    &&& forall|i: int, j: int| 0 <= i < j < es.len() ==> #[trigger] es[i].0 != #[trigger] es[j].0
}

/// No content of `m` holds a newline.
pub open spec fn single_line_values(m: Map<u64, Seq<char>>) -> bool {
    forall|k: u64| #[trigger] m.contains_key(k) ==> has_no(m[k], '\n')
}

proof fn lemma_checkpoint_none_stays(lines: Seq<Seq<char>>, k: int)
    requires
        0 <= k <= lines.len(),
        checkpoint_of_lines(lines.take(k)) is None,
    ensures
        checkpoint_of_lines(lines) is None,
    decreases lines.len() - k,
{
    if k < lines.len() {
        assert(lines.take(k + 1).drop_last() =~= lines.take(k));
        lemma_checkpoint_none_stays(lines, k + 1);
    } else {
        assert(lines.take(k) =~= lines);
    }
}

/// Lines split apart at a newline that ends the first part.
pub proof fn lemma_split_lines_append(a: Seq<char>, b: Seq<char>)
    requires
        a.len() == 0 || a.last() == '\n',
    ensures
        split_lines(a + b) == split_lines(a) + split_lines(b),
    decreases a.len(),
{
    if a.len() == 0 {
        assert(a + b =~= b);
        assert(split_lines(a) + split_lines(b) =~= split_lines(b));
    } else {
        lemma_find_char(a, '\n');
        let i = find_char(a, '\n') as int;
        assert(i < a.len()) by {
            if i >= a.len() {
                assert(a[a.len() - 1] != '\n');
            }
        }
        let s = a + b;
        assert forall|j: int| 0 <= j < i implies s[j] != '\n' by {
            assert(s[j] == a[j]);
        }
        lemma_find_char_at(s, '\n', i);
        let a2 = a.subrange(i + 1, a.len() as int);
        assert(s.subrange(0, i) =~= a.subrange(0, i));
        assert(s.subrange(i + 1, s.len() as int) =~= a2 + b);
        lemma_split_lines_append(a2, b);
        assert(split_lines(a) == seq![a.subrange(0, i)] + split_lines(a2));
        assert(split_lines(s) =~= split_lines(a) + split_lines(b));
    }
}

/// The lines of a checkpoint text are its entries' lines.
proof fn lemma_checkpoint_lines(es: Seq<(u64, Seq<char>)>)
    requires
        forall|i: int| 0 <= i < es.len() ==> has_no(#[trigger] es[i].1, '\n'),
    ensures
        split_lines(checkpoint_text(es)) == es.map_values(|e: (u64, Seq<char>)| entry_line(e)),
    decreases es.len(),
{
    if es.len() > 0 {
        let prev = es.drop_last();
        assert forall|i: int| 0 <= i < prev.len() implies has_no(#[trigger] prev[i].1, '\n') by {
            assert(prev[i] == es[i]);
        }
        lemma_checkpoint_lines(prev);
        let e = es.last();
        let line = entry_line(e);
        lemma_decimal_round_trip(e.0 as nat);
        assert(has_no(es[es.len() - 1].1, '\n'));
        assert forall|j: int| 0 <= j < line.len() implies line[j] != '\n' by {
            if j < decimal_text(e.0 as nat).len() {
                assert(line[j] == decimal_text(e.0 as nat)[j]);
            } else if j > decimal_text(e.0 as nat).len() {
                assert(line[j] == e.1[j - decimal_text(e.0 as nat).len() - 1]);
            }
        }
        lemma_split_lines_cons(line, Seq::empty());
        assert(line + seq!['\n'] + Seq::<char>::empty() =~= line + seq!['\n']);
        let t = checkpoint_text(prev);
        assert(t.len() == 0 || t.last() == '\n');
        lemma_split_lines_append(t, line + seq!['\n']);
        assert(checkpoint_text(es) =~= t + (line + seq!['\n']));
        assert(split_lines(Seq::<char>::empty()) =~= Seq::<Seq<char>>::empty());
        assert(split_lines(checkpoint_text(es)) =~= es.map_values(
            |e: (u64, Seq<char>)| entry_line(e),
        ));
    }
}

/// An entry's line reads back as the entry.
proof fn lemma_entry_round_trip(e: (u64, Seq<char>))
    ensures
        entry_line(e).len() > 0,
        parse_entry(entry_line(e)) == Some(e),
{
    let d = decimal_text(e.0 as nat);
    lemma_decimal_round_trip(e.0 as nat);
    let line = entry_line(e);
    assert forall|t: int| 0 <= t < d.len() implies line[t] != ',' by {
        assert(line[t] == d[t]);
    }
    lemma_find_char_at(line, ',', d.len() as int);
    assert(line.subrange(0, d.len() as int) =~= d);
    assert(line.subrange(d.len() as int + 1, line.len() as int) =~= e.1);
}

/// The map that entries give when each is put in turn.
pub open spec fn map_of_entries(es: Seq<(u64, Seq<char>)>) -> Map<u64, Seq<char>>
    decreases es.len(),
{
    if es.len() == 0 {
        Map::empty()
    } else {
        map_of_entries(es.drop_last()).insert(es.last().0, es.last().1)
    }
}

proof fn lemma_checkpoint_of_entry_lines(es: Seq<(u64, Seq<char>)>)
    ensures
        checkpoint_of_lines(es.map_values(|e: (u64, Seq<char>)| entry_line(e))) == Some(
            map_of_entries(es),
        ),
    decreases es.len(),
{
    if es.len() > 0 {
        let lines = es.map_values(|e: (u64, Seq<char>)| entry_line(e));
        assert(lines.drop_last() =~= es.drop_last().map_values(
            |e: (u64, Seq<char>)| entry_line(e),
        ));
        lemma_checkpoint_of_entry_lines(es.drop_last());
        lemma_entry_round_trip(es.last());
    }
}

proof fn lemma_map_of_listing(es: Seq<(u64, Seq<char>)>, m: Map<u64, Seq<char>>)
    requires
        forall|i: int| 0 <= i < es.len() ==> #[trigger] m.contains_key(es[i].0) && m[es[i].0] == es[i].1,
    ensures
        forall|k: u64| #[trigger]
            map_of_entries(es).contains_key(k) <==> exists|i: int| 0 <= i < es.len() && es[i].0 == k,
        forall|k: u64| #[trigger] map_of_entries(es).contains_key(k) ==> map_of_entries(es)[k] == m[k],
    decreases es.len(),
{
    if es.len() > 0 {
        let prev = es.drop_last();
        assert forall|i: int| 0 <= i < prev.len() implies #[trigger] m.contains_key(prev[i].0) && m[prev[i].0]
            == prev[i].1 by {
            assert(prev[i] == es[i]);
        }
        lemma_map_of_listing(prev, m);
        let last = es.len() - 1;
        assert(m.contains_key(es[last].0));
        assert forall|k: u64| #[trigger]
            map_of_entries(es).contains_key(k) <==> exists|i: int| 0 <= i < es.len() && es[i].0 == k by {
            if map_of_entries(es).contains_key(k) {
                if k != es[last].0 {
                    assert(map_of_entries(es) == map_of_entries(prev).insert(es[last].0, es[last].1));
                    assert(map_of_entries(prev).contains_key(k));
                    let i = choose|i: int| 0 <= i < prev.len() && prev[i].0 == k;
                    assert(es[i].0 == k);
                }
            }
            if exists|i: int| 0 <= i < es.len() && es[i].0 == k {
                let i = choose|i: int| 0 <= i < es.len() && es[i].0 == k;
                if i < last {
                    assert(prev[i].0 == k);
                    assert(map_of_entries(prev).contains_key(k));
                }
            }
        }
        assert forall|k: u64| #[trigger] map_of_entries(es).contains_key(k) implies map_of_entries(
            es,
        )[k] == m[k] by {
            if k != es[last].0 {
                assert(map_of_entries(prev).contains_key(k));
            }
        }
    }
}

/// Writing a snapshot's entries as checkpoint text, in any order, and reading
/// the text back gives the snapshot, so long as no content holds a newline.
pub proof fn lemma_checkpoint_round_trip(es: Seq<(u64, Seq<char>)>, m: Map<u64, Seq<char>>)
    requires
        lists(es, m),
        single_line_values(m),
    ensures
        parse_checkpoint_spec(checkpoint_text(es)) == Some(m),
{
    assert forall|i: int| 0 <= i < es.len() implies has_no(#[trigger] es[i].1, '\n') by {
        assert(m.contains_key(es[i].0));
    }
    lemma_checkpoint_lines(es);
    lemma_checkpoint_of_entry_lines(es);
    lemma_map_of_listing(es, m);
    assert(map_of_entries(es) =~= m);
}

/// Reads a checkpoint file's text into a snapshot; an error where a non-empty
/// line has no comma or no decimal id before it.
pub fn parse_checkpoint(text: &str) -> (r: Result<HashMap<u64, String>, DatabaseError>)
    ensures
        match r {
            Ok(m) => parse_checkpoint_spec(text@) == Some(contents(m@)),
            Err(e) => parse_checkpoint_spec(text@) is None && e.spec_kind()
                == ErrorKind::MalformedCheckpoint,
        },
{
    let lines = lines_of(text);
    let ghost ls = split_lines(text@);
    let mut m: HashMap<u64, String> = HashMap::new();
    assert(ls.take(0) =~= Seq::<Seq<char>>::empty());
    assert(contents(m@) =~= Map::<u64, Seq<char>>::empty());
    let mut idx: usize = 0;
    while idx < lines.len()
        invariant
            lines@.len() == ls.len(),
            ls == split_lines(text@),
            forall|k: int| 0 <= k < lines@.len() ==> #[trigger] lines@[k]@ == ls[k],
            idx <= lines@.len(),
            checkpoint_of_lines(ls.take(idx as int)) == Some(contents(m@)),
        decreases lines@.len() - idx,
    {
        let line = lines[idx].as_str();
        let ghost l = ls[idx as int];
        assert(ls.take(idx + 1).drop_last() =~= ls.take(idx as int));
        assert(ls.take(idx + 1).last() == l);
        if !line.is_empty() {
            let cs = chars_of(line);
            let n = cs.len();
            let i = find_from(&cs, 0, ',');
            assert(l.subrange(0, n as int) =~= l);
            if i == n {
                proof {
                    lemma_checkpoint_none_stays(ls, idx + 1);
                }
                return Err(DatabaseError::of_kind(ErrorKind::MalformedCheckpoint, "malformed checkpoint line: no delimiter"));
            }
            match parse_u64(&cs, 0, i) {
                Some(id) => {
                    let content = line.substring_char(i + 1, n).to_owned();
                    m.insert(id, content);
                },
                None => {
                    proof {
                        lemma_checkpoint_none_stays(ls, idx + 1);
                    }
                    return Err(DatabaseError::of_kind(ErrorKind::MalformedCheckpoint, "malformed checkpoint line: bad id"));
                },
            }
        }
        idx = idx + 1;
    }
    assert(ls.take(idx as int) =~= ls);
    Ok(m)
}

/// Writes a snapshot as checkpoint text: one `id,content` line per entry, in
/// the order in which the map hands its entries out.
pub fn format_checkpoint(m: &HashMap<u64, String>) -> (r: String)
    ensures
        exists|es: Seq<(u64, Seq<char>)>| lists(es, contents(m@)) && r@ == checkpoint_text(es),
{
    let mut text = String::new();
    let ghost mut es: Seq<(u64, Seq<char>)> = Seq::empty();
    let ghost pairs = spec_hash_map_iter(m).remaining();
    let entries = m.iter();
    assert(pairs.no_duplicates());
    for (k, v) in it: entries
        invariant
            pairs.no_duplicates(),
            it.seq() == pairs,
            pairs == spec_hash_map_iter(m).remaining(),
            es.len() == it.index(),
            forall|i: int| 0 <= i < es.len() ==> #[trigger] es[i] == (*it.seq()[i].0, (*it.seq()[i].1)@),
            text@ == checkpoint_text(es),
    {
        let line = decimal_string(*k);
        proof {
            reveal_strlit(",");
            reveal_strlit("\n");
        }
        text.append(line.as_str());
        text.append(",");
        text.append(v.as_str());
        text.append("\n");
        let ghost e = (*k, v@);
        proof {
            let es2 = es.push(e);
            assert(es2.drop_last() =~= es);
            assert(text@ =~= checkpoint_text(es2));
            es = es2;
        }
    }
    proof {
        assert(es.len() == pairs.len());
        let c = contents(m@);
        assert forall|i: int| 0 <= i < es.len() implies #[trigger] c.contains_key(es[i].0) && c[es[i].0]
            == es[i].1 by {
            assert(m@.contains_key(*pairs[i].0) && m@[*pairs[i].0] == *pairs[i].1);
        }
        assert forall|i: int, j: int| 0 <= i < j < es.len() implies #[trigger] es[i].0
            != #[trigger] es[j].0 by {
            if es[i].0 == es[j].0 {
                assert(m@.contains_key(*pairs[i].0) && m@[*pairs[i].0] == *pairs[i].1);
                assert(m@.contains_key(*pairs[j].0) && m@[*pairs[j].0] == *pairs[j].1);
                assert(pairs[i] == pairs[j]);
            }
        }
        assert forall|k: u64| #[trigger] c.contains_key(k) implies exists|i: int|
            0 <= i < es.len() && es[i].0 == k by {
            assert(m@.contains_key(k));
            assert(pairs.contains((&k, &m@[k])));
            let i = choose|i: int| 0 <= i < pairs.len() && pairs[i] == (&k, &m@[k]);
            assert(es[i].0 == k);
        }
    }
    text
}

/// The keys of a snapshot, in increasing order.
pub fn sorted_keys(m: &HashMap<u64, String>) -> (r: Vec<u64>)
    ensures
        forall|i: int, j: int| 0 <= i < j < r@.len() ==> r@[i] < r@[j],
        forall|i: int| 0 <= i < r@.len() ==> m@.contains_key(#[trigger] r@[i]),
        forall|k: u64| #[trigger] m@.contains_key(k) ==> r@.contains(k),
{
    let mut r: Vec<u64> = Vec::new();
    let ghost keys = spec_keys_iter(m).remaining();
    for k in it: m.keys()
        invariant
            it.seq() == keys,
            keys == spec_keys_iter(m).remaining(),
            keys.no_duplicates(),
            keys.unref().to_set() == m@.dom(),
            forall|i: int, j: int| 0 <= i < j < r@.len() ==> r@[i] < r@[j],
            forall|x: u64| r@.contains(x) <==> exists|i: int| 0 <= i < it.index() && *keys[i] == x,
    {
        let key = *k;
        let ghost idx = it.index();
        assert(*keys[idx] == key);
        assert(!r@.contains(key)) by {
            if r@.contains(key) {
                let i = choose|i: int| 0 <= i < idx && *keys[i] == key;
                assert(keys[i] == keys[idx]);
            }
        }
        let mut p: usize = 0;
        while p < r.len() && r[p] < key
            invariant
                p <= r@.len(),
                forall|i: int| 0 <= i < p ==> r@[i] < key,
            decreases r@.len() - p,
        {
            p = p + 1;
        }
        assert(p < r@.len() ==> r@[p as int] > key) by {
            if p < r@.len() {
                assert(r@[p as int] != key);
            }
        }
        let ghost before = r@;
        r.insert(p, key);
        assert forall|x: u64| r@.contains(x) <==> (before.contains(x) || x == key) by {
            if r@.contains(x) {
                let i = choose|i: int| 0 <= i < r@.len() && r@[i] == x;
                if i < p {
                    assert(before[i] == x);
                } else if i > p {
                    assert(before[i - 1] == x);
                }
            }
            if before.contains(x) {
                let i = choose|i: int| 0 <= i < before.len() && before[i] == x;
                if i < p {
                    assert(r@[i] == x);
                } else {
                    assert(r@[i + 1] == x);
                }
            }
            if x == key {
                assert(r@[p as int] == x);
            }
        }
        assert forall|x: u64| r@.contains(x) <==> exists|i: int| 0 <= i < idx + 1 && *keys[i] == x by {
            if exists|i: int| 0 <= i < idx + 1 && *keys[i] == x {
                let i = choose|i: int| 0 <= i < idx + 1 && *keys[i] == x;
                if i < idx {
                    assert(before.contains(x));
                }
            }
            if before.contains(x) {
                let i = choose|i: int| 0 <= i < idx && *keys[i] == x;
                assert(0 <= i < idx + 1 && *keys[i] == x);
            }
        }
    }
    proof {
        assert forall|i: int| 0 <= i < r@.len() implies m@.contains_key(#[trigger] r@[i]) by {
            assert(r@.contains(r@[i]));
            let j = choose|j: int| 0 <= j < keys.len() && *keys[j] == r@[i];
            assert(keys.unref()[j] == *keys[j]);
            assert(keys.unref().contains(*keys[j]));
            assert(keys.unref().to_set().contains(*keys[j]));
        }
        assert forall|k: u64| #[trigger] m@.contains_key(k) implies r@.contains(k) by {
            assert(keys.unref().to_set().contains(k));
            let j = choose|j: int| 0 <= j < keys.unref().len() && keys.unref()[j] == k;
            assert(*keys[j] == k);
        }
    }
    r
}

/// The ids of the checkpoint lines that read as entries, in order.
pub open spec fn checkpoint_ids(lines: Seq<Seq<char>>) -> Seq<u64>
    decreases lines.len(),
{
    if lines.len() == 0 {
        Seq::empty()
    } else {
        match parse_entry(lines.last()) {
            Some(e) => checkpoint_ids(lines.drop_last()).push(e.0),
            None => checkpoint_ids(lines.drop_last()),
        }
    }
}

/// The ids of the lines of a checkpoint text that read as entries, in order.
pub fn read_checkpoint_ids(text: &str) -> (r: Vec<u64>)
    ensures
        r@ == checkpoint_ids(split_lines(text@)),
{
    let lines = lines_of(text);
    let ghost ls = split_lines(text@);
    let mut ids: Vec<u64> = Vec::new();
    let mut idx: usize = 0;
    assert(ls.take(0) =~= Seq::<Seq<char>>::empty());
    while idx < lines.len()
        invariant
            lines@.len() == ls.len(),
            ls == split_lines(text@),
            forall|k: int| 0 <= k < lines@.len() ==> #[trigger] lines@[k]@ == ls[k],
            idx <= lines@.len(),
            ids@ == checkpoint_ids(ls.take(idx as int)),
        decreases lines@.len() - idx,
    {
        let ghost l = ls[idx as int];
        assert(ls.take(idx + 1).drop_last() =~= ls.take(idx as int));
        assert(ls.take(idx + 1).last() == l);
        let cs = chars_of(lines[idx].as_str());
        let n = cs.len();
        let i = find_from(&cs, 0, ',');
        assert(l.subrange(0, n as int) =~= l);
        if i < n {
            match parse_u64(&cs, 0, i) {
                Some(id) => {
                    ids.push(id);
                },
                None => {},
            }
        }
        idx = idx + 1;
    }
    assert(ls.take(idx as int) =~= ls);
    ids
}

} // verus!
