use vstd::prelude::*;
use crate::grammar::{grow_spec, lemma_grow_spec_monotonic, lsystem_wf, rand_lsystem, LSystem};
use crate::{params_wf, Parameters, FS_PER_TURTLE_MOVE, MAX_GROWTH_CYCLES};

verus! {

/// One chunk of the expanded command string, tagged with the grammar's
/// turn angle (fixed-point radians).
pub struct CurrentString {
    pub string: Vec<char>,
    pub angle: i64,
}

/// The lazy segmenter: a cursor into the expanded string of one grammar.
/// Each pull yields a batch of chunks; once the cursor reaches the end,
/// every pull yields nothing and the owner builds a fresh grammar.
pub struct TurtleStates {
    pub current_string_pos: usize,
    pub lsys: LSystem,
}

/// The index of the first forward-move command at or after `pos`, or the
/// string's length when none remains.
pub open spec fn find_f(s: Seq<char>, pos: int) -> int
    decreases s.len() - pos when 0 <= pos <= s.len()
{
    if pos >= s.len() {
        s.len() as int
    } else if s[pos] == 'F' {
        pos
    } else {
        find_f(s, pos + 1)
    }
}

/// What `find_f` returns: the first forward-move at or after `pos`.
pub proof fn lemma_find_f(s: Seq<char>, pos: int)
    requires
        0 <= pos <= s.len(),
    ensures
        pos <= find_f(s, pos) <= s.len(),
        find_f(s, pos) < s.len() ==> s[find_f(s, pos)] == 'F',
        forall|i: int| pos <= i < find_f(s, pos) ==> s[i] != 'F',
    decreases s.len() - pos,
{
    if pos < s.len() && s[pos] != 'F' {
        lemma_find_f(s, pos + 1);
    }
}

/// One batch pulled from the segmenter, starting at cursor `pos` with
/// `fs` forward-moves already consumed in this batch: the chunks in
/// order, and the cursor after the batch. Each chunk runs to (and
/// includes) the next forward-move, or to the end of the string; the
/// batch ends after `FS_PER_TURTLE_MOVE` forward-moves or at the end.
pub open spec fn batch_spec(s: Seq<char>, pos: int, fs: int) -> (Seq<Seq<char>>, int)
    decreases (FS_PER_TURTLE_MOVE as int) - fs when 0 <= fs < FS_PER_TURTLE_MOVE
{
    if pos < 0 || pos >= s.len() {
        (Seq::empty(), pos)
    } else {
        let f = find_f(s, pos);
        if f < s.len() {
            let chunk = s.subrange(pos, f + 1);
            if fs + 1 >= FS_PER_TURTLE_MOVE {
                (seq![chunk], f + 1)
            } else {
                let rec = batch_spec(s, f + 1, fs + 1);
                (seq![chunk] + rec.0, rec.1)
            }
        } else {
            (seq![s.subrange(pos, s.len() as int)], s.len() as int)
        }
    }
}

/// The chunks of a batch, concatenated in yield order.
pub open spec fn concat_all(ss: Seq<Seq<char>>) -> Seq<char>
    decreases ss.len(),
{
    if ss.len() == 0 {
        Seq::empty()
    } else {
        ss[0] + concat_all(ss.skip(1))
    }
}

/// The number of forward-move commands in a string.
pub open spec fn count_f(t: Seq<char>) -> int
    decreases t.len(),
{
    if t.len() == 0 {
        0
    } else {
        (if t[0] == 'F' {
            1int
        } else {
            0int
        }) + count_f(t.skip(1))
    }
}

proof fn lemma_concat_all_cons(c: Seq<char>, rest: Seq<Seq<char>>)
    ensures
        concat_all(seq![c] + rest) == c + concat_all(rest),
{
    let ss = seq![c] + rest;
    assert(ss[0] == c);
    assert(ss.skip(1) =~= rest);
}

proof fn lemma_count_f_concat(a: Seq<char>, b: Seq<char>)
    ensures
        count_f(a + b) == count_f(a) + count_f(b),
    decreases a.len(),
{
    if a.len() == 0 {
        assert(a + b =~= b);
    } else {
        assert((a + b)[0] == a[0]);
        assert((a + b).skip(1) =~= a.skip(1) + b);
        lemma_count_f_concat(a.skip(1), b);
    }
}

/// A string whose forward-moves can only sit at the very end holds at
/// most one of them, exactly one when it ends with one.
proof fn lemma_count_f_single(t: Seq<char>)
    requires
        forall|i: int| 0 <= i < t.len() - 1 ==> t[i] != 'F',
    ensures
        count_f(t) == if t.len() > 0 && t.last() == 'F' {
            1int
        } else {
            0int
        },
    decreases t.len(),
{
    if t.len() > 0 {
        assert(forall|i: int| 0 <= i < t.skip(1).len() - 1 ==> t.skip(1)[i] != 'F');
        lemma_count_f_single(t.skip(1));
        if t.len() > 1 {
            assert(t.skip(1).last() == t.last());
            assert(t[0] != 'F');
        }
    }
}

/// The segmenter's coverage laws: a batch pulled at a cursor strictly
/// advances it (never past the end); the concatenation of its chunks, in
/// yield order, is exactly the stretch of the expanded string between
/// the old and the new cursor; every chunk is non-empty and ends on a
/// forward-move unless it is the final chunk of the whole string; and
/// the batch holds at most `FS_PER_TURTLE_MOVE - fs` forward-moves.
pub proof fn lemma_batch_covers(s: Seq<char>, pos: int, fs: int)
    requires
        0 <= pos <= s.len(),
        0 <= fs < FS_PER_TURTLE_MOVE,
    ensures
        ({
            let (chunks, end) = batch_spec(s, pos, fs);
            &&& pos <= end <= s.len()
            &&& pos < s.len() ==> pos < end
            &&& pos >= s.len() ==> end == pos && chunks.len() == 0
            &&& concat_all(chunks) == s.subrange(pos, end)
            &&& forall|i: int|
                0 <= i < chunks.len() ==> (#[trigger] chunks[i]).len() >= 1 && (chunks[i].last()
                    == 'F' || (i == chunks.len() - 1 && end == s.len()))
            &&& count_f(concat_all(chunks)) <= FS_PER_TURTLE_MOVE - fs
        }),
    decreases (FS_PER_TURTLE_MOVE as int) - fs,
{
    let (chunks, end) = batch_spec(s, pos, fs);
    if pos >= s.len() {
        assert(concat_all(chunks) =~= s.subrange(pos, end));
    } else {
        lemma_find_f(s, pos);
        let f = find_f(s, pos);
        if f < s.len() {
            let chunk = s.subrange(pos, f + 1);
            assert(chunk.last() == s[f]);
            assert(forall|i: int| 0 <= i < chunk.len() - 1 ==> chunk[i] != 'F');
            lemma_count_f_single(chunk);
            if fs + 1 >= FS_PER_TURTLE_MOVE {
                assert(chunks =~= seq![chunk]);
                assert(chunks[0] == chunk);
                assert(chunks.skip(1) =~= Seq::<Seq<char>>::empty());
                assert(concat_all(Seq::<Seq<char>>::empty()) =~= Seq::<char>::empty());
                assert(concat_all(chunks) =~= chunk + Seq::<char>::empty());
                assert(concat_all(chunks) =~= s.subrange(pos, end));
                lemma_count_f_concat(chunk, Seq::<char>::empty());
                assert(count_f(Seq::<char>::empty()) == 0);
            } else {
                let rec = batch_spec(s, f + 1, fs + 1);
                lemma_batch_covers(s, f + 1, fs + 1);
                lemma_concat_all_cons(chunk, rec.0);
                assert(chunk + s.subrange(f + 1, rec.1) =~= s.subrange(pos, rec.1));
                lemma_count_f_concat(chunk, concat_all(rec.0));
                assert forall|i: int|
                    0 <= i < chunks.len() implies (#[trigger] chunks[i]).len() >= 1 && (
                chunks[i].last() == 'F' || (i == chunks.len() - 1 && end == s.len())) by {
                    if i == 0 {
                        assert(chunks[0] == chunk);
                    } else {
                        assert(chunks[i] == rec.0[i - 1]);
                    }
                }
            }
        } else {
            let chunk = s.subrange(pos, s.len() as int);
            assert(chunks =~= seq![chunk]);
            assert(chunks[0] == chunk);
            assert(chunks.skip(1) =~= Seq::<Seq<char>>::empty());
            assert(concat_all(Seq::<Seq<char>>::empty()) =~= Seq::<char>::empty());
            assert(concat_all(chunks) =~= chunk + Seq::<char>::empty());
            assert(concat_all(chunks) =~= s.subrange(pos, end));
            assert(forall|i: int| 0 <= i < chunk.len() - 1 ==> chunk[i] != 'F');
            lemma_count_f_single(chunk);
            lemma_count_f_concat(chunk, Seq::<char>::empty());
            assert(count_f(Seq::<char>::empty()) == 0);
        }
    }
}

/// A copy of the characters of `v` between `a` and `b`.
fn copy_range(v: &Vec<char>, a: usize, b: usize) -> (r: Vec<char>)
    requires
        a <= b <= v@.len(),
    ensures
        r@ == v@.subrange(a as int, b as int),
{
    let mut r: Vec<char> = Vec::new();
    let mut i: usize = a;
    while i < b
        invariant
            a <= i <= b <= v@.len(),
            r@ == v@.subrange(a as int, i as int),
        decreases b - i,
    {
        r.push(v[i]);
        proof {
            assert(v@.subrange(a as int, (i + 1) as int) =~= v@.subrange(a as int, i as int).push(
                v@[i as int],
            ));
        }
        i = i + 1;
    }
    r
}

/// The first forward-move at or after `from`, or the string's length.
fn find_f_exec(v: &Vec<char>, from: usize) -> (r: usize)
    requires
        from <= v@.len(),
    ensures
        r == find_f(v@, from as int),
        from <= r <= v@.len(),
{
    let mut i: usize = from;
    while i < v.len()
        invariant
            from <= i <= v@.len(),
            find_f(v@, from as int) == find_f(v@, i as int),
        decreases v@.len() - i,
    {
        if v[i] == 'F' {
            return i;
        }
        i = i + 1;
    }
    v.len()
}

impl TurtleStates {
    /// A fresh segmenter over a newly generated, fully expanded grammar.
    pub fn new(params: &Parameters, rng: &mut rand::rngs::ThreadRng) -> (r: TurtleStates)
        requires
            params_wf(*params),
        ensures
            r.current_string_pos == 0,
            lsystem_wf(r.lsys),
            r.lsys.string@ == grow_spec(
                r.lsys.rules@,
                r.lsys.seed@,
                r.lsys.seed@,
                params.lsystem_max_length as int,
                (MAX_GROWTH_CYCLES + 1) as nat,
            ),
            r.lsys.string@.len() >= r.lsys.seed@.len(),
    {
        let mut lsys = rand_lsystem(params, rng);
        let ghost seed = lsys.string@;
        lsys.grow(params.lsystem_max_length);
        proof {
            lemma_grow_spec_monotonic(
                lsys.rules@,
                seed,
                seed,
                params.lsystem_max_length as int,
                (MAX_GROWTH_CYCLES + 1) as nat,
            );
        }
        TurtleStates { current_string_pos: 0, lsys }
    }

    /// Pull the next batch of chunks, advancing the cursor; yields
    /// nothing once the string is exhausted.
    pub fn next(&mut self) -> (r: Option<Vec<CurrentString>>)
        ensures
            old(self).current_string_pos >= old(self).lsys.string@.len() ==> r is None
                && final(self).current_string_pos == old(self).current_string_pos
                && final(self).lsys == old(self).lsys,
            old(self).current_string_pos < old(self).lsys.string@.len() ==> ({
                let b = batch_spec(
                    old(self).lsys.string@,
                    old(self).current_string_pos as int,
                    0,
                );
                &&& r is Some
                &&& r->0@.map_values(|c: CurrentString| c.string@) == b.0
                &&& forall|i: int|
                    0 <= i < r->0@.len() ==> (#[trigger] r->0@[i]).angle == old(self).lsys.angle
                &&& final(self).current_string_pos == b.1
                &&& final(self).lsys == old(self).lsys
            }),
    {
        let ghost s = self.lsys.string@;
        let ghost pos0 = self.current_string_pos as int;
        let s_len = self.lsys.string.len();
        if self.current_string_pos >= s_len {
            return None;
        }
        let mut num_fs: usize = 0;
        let mut current_strings: Vec<CurrentString> = Vec::new();
        while self.current_string_pos < s_len && num_fs < FS_PER_TURTLE_MOVE
            invariant
                s == self.lsys.string@,
                s_len == s.len(),
                self.lsys == old(self).lsys,
                pos0 <= self.current_string_pos as int <= s.len(),
                0 <= num_fs <= FS_PER_TURTLE_MOVE,
                forall|i: int|
                    0 <= i < current_strings@.len() ==> (#[trigger] current_strings@[i]).angle
                        == self.lsys.angle,
                num_fs < FS_PER_TURTLE_MOVE ==> batch_spec(s, pos0, 0) == (
                    current_strings@.map_values(|c: CurrentString| c.string@) + batch_spec(
                        s,
                        self.current_string_pos as int,
                        num_fs as int,
                    ).0,
                    batch_spec(s, self.current_string_pos as int, num_fs as int).1,
                ),
                num_fs == FS_PER_TURTLE_MOVE ==> batch_spec(s, pos0, 0) == (
                    current_strings@.map_values(|c: CurrentString| c.string@),
                    self.current_string_pos as int,
                ),
            decreases s.len() - self.current_string_pos,
        {
            let ghost pos_pre = self.current_string_pos as int;
            let ghost segs_pre = current_strings@.map_values(|c: CurrentString| c.string@);
            proof {
                lemma_find_f(s, pos_pre);
            }
            let next_f_pos = find_f_exec(&self.lsys.string, self.current_string_pos);
            if next_f_pos < s_len {
                num_fs = num_fs + 1;
                let chunk = copy_range(&self.lsys.string, self.current_string_pos, next_f_pos + 1);
                let current_string = CurrentString { string: chunk, angle: self.lsys.angle };
                current_strings.push(current_string);
                self.current_string_pos = next_f_pos + 1;
                proof {
                    assert(current_strings@.map_values(|c: CurrentString| c.string@) =~= segs_pre
                        .push(s.subrange(pos_pre, next_f_pos + 1)));
                    if num_fs < FS_PER_TURTLE_MOVE {
                        let rec = batch_spec(s, next_f_pos + 1, num_fs as int);
                        assert(batch_spec(s, pos_pre, (num_fs - 1) as int).0 =~= seq![
                            s.subrange(pos_pre, next_f_pos + 1),
                        ] + rec.0);
                        assert(segs_pre + (seq![s.subrange(pos_pre, next_f_pos + 1)] + rec.0)
                            =~= segs_pre.push(s.subrange(pos_pre, next_f_pos + 1)) + rec.0);
                    } else {
                        assert(batch_spec(s, pos_pre, (num_fs - 1) as int).0 =~= seq![
                            s.subrange(pos_pre, next_f_pos + 1),
                        ]);
                        assert(segs_pre + seq![s.subrange(pos_pre, next_f_pos + 1)] =~= segs_pre
                            .push(s.subrange(pos_pre, next_f_pos + 1)));
                    }
                }
            } else {
                let chunk = copy_range(&self.lsys.string, self.current_string_pos, s_len);
                let current_string = CurrentString { string: chunk, angle: self.lsys.angle };
                current_strings.push(current_string);
                self.current_string_pos = s_len;
                proof {
                    assert(current_strings@.map_values(|c: CurrentString| c.string@) =~= segs_pre
                        .push(s.subrange(pos_pre, s.len() as int)));
                    assert(batch_spec(s, pos_pre, num_fs as int).0 =~= seq![
                        s.subrange(pos_pre, s.len() as int),
                    ]);
                    assert(segs_pre + seq![s.subrange(pos_pre, s.len() as int)] =~= segs_pre.push(
                        s.subrange(pos_pre, s.len() as int),
                    ));
                    assert(batch_spec(s, s.len() as int, num_fs as int).0
                        =~= Seq::<Seq<char>>::empty());
                    assert(segs_pre.push(s.subrange(pos_pre, s.len() as int)) + Seq::<
                        Seq<char>,
                    >::empty() =~= segs_pre.push(s.subrange(pos_pre, s.len() as int)));
                }
            }
        }
        proof {
            if num_fs < FS_PER_TURTLE_MOVE {
                assert(batch_spec(s, self.current_string_pos as int, num_fs as int).0
                    =~= Seq::<Seq<char>>::empty());
                assert(current_strings@.map_values(|c: CurrentString| c.string@) + Seq::<
                    Seq<char>,
                >::empty() =~= current_strings@.map_values(|c: CurrentString| c.string@));
            }
        }
        Some(current_strings)
    }
}

} // verus!