use vstd::prelude::*;
use vstd::set_lib::lemma_len_subset;
use crate::rng::{rng_range_i64, rng_range_usize};
use crate::{
    params_wf, preset_angle, Parameters, FP, MAX_ANGLE, MAX_GENERATION_ATTEMPTS,
    MAX_GROWTH_CYCLES, MAX_STRING_ATTEMPTS, MIN_ANGLE, NUM_PRESET_ANGLES,
};

verus! {

broadcast use vstd::seq_lib::seq_to_set_is_finite;

/// A rewriting grammar: the start (`seed`), the current expansion
/// (`string`), the production rules as an association list with unique
/// single-character keys, and the global turn angle in fixed-point
/// radians.
pub struct LSystem {
    pub seed: Vec<char>,
    pub string: Vec<char>,
    pub rules: Vec<(char, Vec<char>)>,
    pub angle: i64,
}

/// The body of the first rule whose key is `c`, if any.
pub open spec fn lookup_spec(rules: Seq<(char, Vec<char>)>, c: char) -> Option<Seq<char>>
    decreases rules.len(),
{
    if rules.len() == 0 {
        None
    } else if rules[0].0 == c {
        Some(rules[0].1@)
    } else {
        lookup_spec(rules.skip(1), c)
    }
}

/// What one character is rewritten to: its rule body, or itself when no
/// rule applies.
pub open spec fn subst_one(rules: Seq<(char, Vec<char>)>, c: char) -> Seq<char> {
    match lookup_spec(rules, c) {
        Some(b) => b,
        None => seq![c],
    }
}

/// One rewriting cycle: every character replaced simultaneously.
pub open spec fn apply_rules_spec(rules: Seq<(char, Vec<char>)>, s: Seq<char>) -> Seq<char>
    decreases s.len(),
{
    if s.len() == 0 {
        Seq::empty()
    } else {
        subst_one(rules, s[0]) + apply_rules_spec(rules, s.skip(1))
    }
}

/// Every rule body holds at least one character.
pub open spec fn bodies_nonempty(rules: Seq<(char, Vec<char>)>) -> bool {
    forall|i: int| 0 <= i < rules.len() ==> (#[trigger] rules[i].1)@.len() >= 1
}

/// The iterated expansion, as the rewriter computes it: `cur` is the last
/// kept string, `grown` its expansion; rewriting stops once `grown`
/// reaches the length bound (keeping `cur`), reaches a syntactic fixed
/// point, or exhausts the cycle fuel (keeping the fixed point or `grown`).
pub open spec fn grow_spec(
    rules: Seq<(char, Vec<char>)>,
    cur: Seq<char>,
    grown: Seq<char>,
    max_len: int,
    fuel: nat,
) -> Seq<char>
    decreases fuel,
{
    if grown.len() >= max_len {
        cur
    } else {
        let next = apply_rules_spec(rules, grown);
        if next == grown {
            grown
        } else if fuel == 0 {
            grown
        } else {
            grow_spec(rules, grown, next, max_len, (fuel - 1) as nat)
        }
    }
}

/// Rewriting one more character appends that character's substitution.
proof fn lemma_apply_snoc(rules: Seq<(char, Vec<char>)>, s: Seq<char>, c: char)
    ensures
        apply_rules_spec(rules, s.push(c)) == apply_rules_spec(rules, s) + subst_one(rules, c),
    decreases s.len(),
{
    if s.len() == 0 {
        assert(s.push(c)[0] == c);
        assert(s.push(c).skip(1) =~= s);
        assert(apply_rules_spec(rules, s) == Seq::<char>::empty());
        assert(subst_one(rules, c) + Seq::<char>::empty() =~= Seq::<char>::empty() + subst_one(
            rules,
            c,
        ));
    } else {
        assert(s.push(c)[0] == s[0]);
        assert(s.push(c).skip(1) =~= s.skip(1).push(c));
        lemma_apply_snoc(rules, s.skip(1), c);
        assert(subst_one(rules, s[0]) + (apply_rules_spec(rules, s.skip(1)) + subst_one(rules, c))
            =~= (subst_one(rules, s[0]) + apply_rules_spec(rules, s.skip(1))) + subst_one(
            rules,
            c,
        ));
    }
}

/// When every body is non-empty, each character's substitution is too.
proof fn lemma_subst_one_nonempty(rules: Seq<(char, Vec<char>)>, c: char)
    requires
        bodies_nonempty(rules),
    ensures
        subst_one(rules, c).len() >= 1,
    decreases rules.len(),
{
    if rules.len() == 0 {
    } else if rules[0].0 == c {
        assert(rules[0].1@.len() >= 1);
    } else {
        assert(forall|i: int|
            0 <= i < rules.skip(1).len() ==> (#[trigger] rules.skip(1)[i]) == rules[i + 1]);
        lemma_subst_one_nonempty(rules.skip(1), c);
    }
}

/// A grammar whose rule bodies are all non-empty can only grow: one
/// rewriting cycle never shortens the string.
pub proof fn lemma_growth_non_decreasing(rules: Seq<(char, Vec<char>)>, s: Seq<char>)
    requires
        bodies_nonempty(rules),
    ensures
        apply_rules_spec(rules, s).len() >= s.len(),
    decreases s.len(),
{
    if s.len() > 0 {
        lemma_subst_one_nonempty(rules, s[0]);
        lemma_growth_non_decreasing(rules, s.skip(1));
    }
}

/// End to end, the rewriter never shrinks the kept string: whatever stop
/// condition ends the expansion of a grammar with non-empty rule bodies,
/// the result is at least as long as the last kept string.
pub proof fn lemma_grow_spec_monotonic(
    rules: Seq<(char, Vec<char>)>,
    cur: Seq<char>,
    grown: Seq<char>,
    max_len: int,
    fuel: nat,
)
    requires
        bodies_nonempty(rules),
        cur.len() <= grown.len(),
    ensures
        grow_spec(rules, cur, grown, max_len, fuel).len() >= cur.len(),
    decreases fuel,
{
    if grown.len() < max_len {
        let next = apply_rules_spec(rules, grown);
        lemma_growth_non_decreasing(rules, grown);
        if next != grown && fuel > 0 {
            lemma_grow_spec_monotonic(rules, grown, next, max_len, (fuel - 1) as nat);
        }
    }
}

/// A copy of a character vector.
fn copy_chars(v: &Vec<char>) -> (r: Vec<char>)
    ensures
        r@ == v@,
{
    let mut r: Vec<char> = Vec::new();
    let mut i: usize = 0;
    while i < v.len()
        invariant
            i <= v.len(),
            r@ == v@.take(i as int),
        decreases v.len() - i,
    {
        r.push(v[i]);
        proof {
            assert(v@.take((i + 1) as int) =~= v@.take(i as int).push(v@[i as int]));
        }
        i = i + 1;
    }
    proof {
        assert(v@.take(v.len() as int) =~= v@);
    }
    r
}

/// Element-wise equality of two character vectors.
fn vec_eq_chars(a: &Vec<char>, b: &Vec<char>) -> (r: bool)
    ensures
        r <==> a@ == b@,
{
    if a.len() != b.len() {
        proof {
            assert(a@.len() != b@.len());
        }
        return false;
    }
    let mut i: usize = 0;
    while i < a.len()
        invariant
            i <= a.len(),
            a@.len() == b@.len(),
            forall|j: int| 0 <= j < i ==> a@[j] == b@[j],
        decreases a.len() - i,
    {
        if a[i] != b[i] {
            proof {
                assert(a@[i as int] != b@[i as int]);
            }
            return false;
        }
        i = i + 1;
    }
    proof {
        assert(a@ =~= b@);
    }
    true
}

/// Whether a character vector holds a given character.
pub fn contains_char(v: &Vec<char>, c: char) -> (r: bool)
    ensures
        r <==> v@.contains(c),
{
    let mut i: usize = 0;
    while i < v.len()
        invariant
            i <= v.len(),
            forall|j: int| 0 <= j < i ==> v@[j] != c,
        decreases v.len() - i,
    {
        if v[i] == c {
            return true;
        }
        i = i + 1;
    }
    false
}

/// The body of the first rule keyed by `c`, if any.
fn find_rule<'a>(rules: &'a Vec<(char, Vec<char>)>, c: char) -> (r: Option<&'a Vec<char>>)
    ensures
        match r {
            Some(b) => lookup_spec(rules@, c) == Some(b@),
            None => lookup_spec(rules@, c) is None,
        },
{
    proof {
        assert(rules@.skip(0) =~= rules@);
    }
    let mut i: usize = 0;
    while i < rules.len()
        invariant
            i <= rules.len(),
            lookup_spec(rules@, c) == lookup_spec(rules@.skip(i as int), c),
        decreases rules.len() - i,
    {
        proof {
            assert(rules@.skip(i as int)[0] == rules@[i as int]);
            assert(rules@.skip(i as int).skip(1) =~= rules@.skip((i + 1) as int));
        }
        if rules[i].0 == c {
            return Some(&rules[i].1);
        }
        i = i + 1;
    }
    proof {
        assert(rules@.skip(rules.len() as int) =~= Seq::<(char, Vec<char>)>::empty());
    }
    None
}

/// One rewriting cycle over a whole string.
fn apply_rules(rules: &Vec<(char, Vec<char>)>, s: &Vec<char>) -> (r: Vec<char>)
    ensures
        r@ == apply_rules_spec(rules@, s@),
{
    let mut r: Vec<char> = Vec::new();
    let mut i: usize = 0;
    while i < s.len()
        invariant
            i <= s.len(),
            r@ == apply_rules_spec(rules@, s@.take(i as int)),
        decreases s.len() - i,
    {
        let ghost pre = s@.take(i as int);
        let c = s[i];
        match find_rule(rules, c) {
            Some(body) => {
                let mut j: usize = 0;
                let ghost rpre = r@;
                while j < body.len()
                    invariant
                        j <= body.len(),
                        r@ == rpre + body@.take(j as int),
                    decreases body.len() - j,
                {
                    r.push(body[j]);
                    proof {
                        assert(rpre + body@.take((j + 1) as int) =~= (rpre + body@.take(
                            j as int,
                        )).push(body@[j as int]));
                    }
                    j = j + 1;
                }
                proof {
                    assert(body@.take(body.len() as int) =~= body@);
                }
            },
            None => {
                r.push(c);
                proof {
                    assert(subst_one(rules@, c) =~= seq![c]);
                }
            },
        }
        proof {
            assert(s@.take((i + 1) as int) =~= pre.push(c));
            lemma_apply_snoc(rules@, pre, c);
        }
        i = i + 1;
    }
    proof {
        assert(s@.take(s.len() as int) =~= s@);
    }
    r
}

impl LSystem {
    /// A grammar from its parts; the current expansion starts as the start.
    pub fn new(start: Vec<char>, rule_map: Vec<(char, Vec<char>)>, angle: i64) -> (r: LSystem)
        ensures
            r.seed@ == start@,
            r.string@ == start@,
            r.rules@ == rule_map@,
            r.angle == angle,
    {
        let seed = copy_chars(&start);
        LSystem { seed, string: start, rules: rule_map, angle }
    }

    /// Expand the start by iterated substitution until the length bound,
    /// a syntactic fixed point, or the cycle cap; Verus checks that the
    /// loop terminates within the cap.
    pub fn grow(&mut self, max_len: usize)
        ensures
            final(self).string@ == grow_spec(
                old(self).rules@,
                old(self).string@,
                old(self).string@,
                max_len as int,
                (MAX_GROWTH_CYCLES + 1) as nat,
            ),
            final(self).rules@ == old(self).rules@,
            final(self).seed@ == old(self).seed@,
            final(self).angle == old(self).angle,
    {
        let ghost rules0 = self.rules@;
        let ghost seed0 = self.seed@;
        let ghost angle0 = self.angle;
        let ghost target = grow_spec(
            rules0,
            self.string@,
            self.string@,
            max_len as int,
            (MAX_GROWTH_CYCLES + 1) as nat,
        );
        let mut growth_cycle: usize = 0;
        let mut grown_string = copy_chars(&self.string);
        loop
            invariant_except_break
                target == grow_spec(
                    rules0,
                    self.string@,
                    grown_string@,
                    max_len as int,
                    (MAX_GROWTH_CYCLES + 1 - growth_cycle) as nat,
                ),
            invariant
                growth_cycle <= MAX_GROWTH_CYCLES + 1,
                self.rules@ == rules0,
                self.seed@ == seed0,
                self.angle == angle0,
            ensures
                self.rules@ == rules0,
                self.seed@ == seed0,
                self.angle == angle0,
                self.string@ == target,
            decreases MAX_GROWTH_CYCLES + 2 - growth_cycle,
        {
            if grown_string.len() >= max_len {
                break ;
            }
            let ghost cur_pre = self.string@;
            let ghost grown_pre = grown_string@;
            let ghost fuel_pre = (MAX_GROWTH_CYCLES + 1 - growth_cycle) as nat;
            self.string = grown_string;
            let next = apply_rules(&self.rules, &self.string);
            grown_string = next;
            if vec_eq_chars(&grown_string, &self.string) {
                break ;
            }
            if growth_cycle > MAX_GROWTH_CYCLES {
                break ;
            }
            proof {
                assert(fuel_pre >= 1);
                assert(grow_spec(rules0, cur_pre, grown_pre, max_len as int, fuel_pre)
                    == grow_spec(
                    rules0,
                    grown_pre,
                    apply_rules_spec(rules0, grown_pre),
                    max_len as int,
                    (fuel_pre - 1) as nat,
                ));
            }
            growth_cycle = growth_cycle + 1;
        }
    }
}

/// Appending one element adds exactly that element to the members.
proof fn lemma_push_contains(s: Seq<char>, a: char, x: char)
    ensures
        s.push(a).contains(x) <==> (s.contains(x) || x == a),
{
    if s.push(a).contains(x) {
        let k = choose|k: int| 0 <= k < s.push(a).len() && s.push(a)[k] == x;
        if k < s.len() {
            assert(s[k] == x);
        }
    }
    if s.contains(x) {
        let k = choose|k: int| 0 <= k < s.len() && s[k] == x;
        assert(s.push(a)[k] == x);
    }
    if x == a {
        assert(s.push(a)[s.len() as int] == x);
    }
}

/// The two bracket characters never carry a rule.
pub open spec fn is_bracket(c: char) -> bool {
    c == '[' || c == ']'
}

/// The five-symbol command alphabet plus the two brackets.
pub open spec fn in_alphabet(c: char) -> bool {
    c == 'F' || c == '+' || c == '-' || c == 'A' || c == 'B' || c == '[' || c == ']'
}

/// The `i`-th rule's key is sound: not a bracket, observed in the start
/// or in an earlier rule's body, and distinct from every earlier key.
pub open spec fn key_ok(start: Seq<char>, rules: Seq<(char, Vec<char>)>, i: int) -> bool {
    &&& !is_bracket(rules[i].0)
    &&& (start.contains(rules[i].0) || exists|j: int|
        0 <= j < i && (#[trigger] rules[j].1)@.contains(rules[i].0))
    &&& forall|j: int| 0 <= j < i ==> (#[trigger] rules[j].0) != rules[i].0
}

/// Every rule key is sound: keys are pairwise distinct and each was
/// observed in the start or an earlier-assigned rule body.
pub open spec fn rules_wf(start: Seq<char>, rules: Seq<(char, Vec<char>)>) -> bool {
    forall|i: int| 0 <= i < rules.len() ==> #[trigger] key_ok(start, rules, i)
}

/// A generated grammar is self-consistent: sound rule keys, non-empty
/// rule bodies, a non-empty start, an in-range angle, and at least one
/// forward-move command somewhere in the start or a rule body.
pub open spec fn lsystem_wf(l: LSystem) -> bool {
    &&& rules_wf(l.seed@, l.rules@)
    &&& bodies_nonempty(l.rules@)
    &&& l.seed@.len() >= 1
    &&& MIN_ANGLE <= l.angle <= MAX_ANGLE
    &&& (l.seed@.contains('F') || exists|i: int|
        0 <= i < l.rules@.len() && (#[trigger] l.rules@[i].1)@.contains('F'))
}

/// The string with every occurrence of `c` removed, other characters
/// kept in order with their multiplicity.
pub open spec fn remove_all(s: Seq<char>, c: char) -> Seq<char>
    decreases s.len(),
{
    if s.len() == 0 {
        Seq::empty()
    } else {
        (if s[0] != c {
            seq![s[0]]
        } else {
            Seq::empty()
        }) + remove_all(s.skip(1), c)
    }
}

/// The characters of `s` that are not banned, in order, duplicates kept.
pub open spec fn keep_unbanned(s: Seq<char>, banned: Seq<char>) -> Seq<char>
    decreases s.len(),
{
    if s.len() == 0 {
        Seq::empty()
    } else {
        (if !banned.contains(s[0]) {
            seq![s[0]]
        } else {
            Seq::empty()
        }) + keep_unbanned(s.skip(1), banned)
    }
}

proof fn lemma_remove_all_snoc(s: Seq<char>, x: char, c: char)
    ensures
        remove_all(s.push(x), c) == remove_all(s, c) + (if x != c {
            seq![x]
        } else {
            Seq::<char>::empty()
        }),
    decreases s.len(),
{
    let tail: Seq<char> = if x != c {
        seq![x]
    } else {
        Seq::empty()
    };
    if s.len() == 0 {
        assert(s.push(x)[0] == x);
        assert(s.push(x).skip(1) =~= s);
        assert(remove_all(s, c) == Seq::<char>::empty());
        assert(tail + Seq::<char>::empty() =~= Seq::<char>::empty() + tail);
    } else {
        assert(s.push(x)[0] == s[0]);
        assert(s.push(x).skip(1) =~= s.skip(1).push(x));
        lemma_remove_all_snoc(s.skip(1), x, c);
        let head: Seq<char> = if s[0] != c {
            seq![s[0]]
        } else {
            Seq::empty()
        };
        assert(head + (remove_all(s.skip(1), c) + tail) =~= (head + remove_all(s.skip(1), c))
            + tail);
    }
}

proof fn lemma_keep_unbanned_snoc(s: Seq<char>, x: char, banned: Seq<char>)
    ensures
        keep_unbanned(s.push(x), banned) == keep_unbanned(s, banned) + (if !banned.contains(x) {
            seq![x]
        } else {
            Seq::<char>::empty()
        }),
    decreases s.len(),
{
    let tail: Seq<char> = if !banned.contains(x) {
        seq![x]
    } else {
        Seq::empty()
    };
    if s.len() == 0 {
        assert(s.push(x)[0] == x);
        assert(s.push(x).skip(1) =~= s);
        assert(keep_unbanned(s, banned) == Seq::<char>::empty());
        assert(tail + Seq::<char>::empty() =~= Seq::<char>::empty() + tail);
    } else {
        assert(s.push(x)[0] == s[0]);
        assert(s.push(x).skip(1) =~= s.skip(1).push(x));
        lemma_keep_unbanned_snoc(s.skip(1), x, banned);
        let head: Seq<char> = if !banned.contains(s[0]) {
            seq![s[0]]
        } else {
            Seq::empty()
        };
        assert(head + (keep_unbanned(s.skip(1), banned) + tail) =~= (head + keep_unbanned(
            s.skip(1),
            banned,
        )) + tail);
    }
}

/// The pool of characters still available as rule keys: every character
/// seen so far minus the banned ones (brackets and already-used keys).
pub struct CharSet {
    pub banned_chars: Vec<char>,
    pub set: Vec<char>,
}

impl CharSet {
    /// An empty pool with the given characters banned from the start.
    pub fn new(banned_chars: Vec<char>) -> (r: CharSet)
        ensures
            r.set@.len() == 0,
            r.banned_chars@ == banned_chars@,
    {
        CharSet { banned_chars, set: Vec::new() }
    }

    /// Append every character of `s` that is not banned, in order,
    /// duplicates kept; banned characters never enter the pool.
    pub fn add_chars(&mut self, s: &Vec<char>)
        ensures
            final(self).banned_chars@ == old(self).banned_chars@,
            final(self).set@ == old(self).set@ + keep_unbanned(s@, old(self).banned_chars@),
            forall|c: char|
                #![trigger final(self).set@.contains(c)]
                #![trigger old(self).set@.contains(c)]
                final(self).set@.contains(c) <==> old(self).set@.contains(c) || (s@.contains(c)
                    && !old(self).banned_chars@.contains(c)),
    {
        let ghost set0 = self.set@;
        let mut i: usize = 0;
        while i < s.len()
            invariant
                i <= s.len(),
                self.banned_chars@ == old(self).banned_chars@,
                self.set@ == set0 + keep_unbanned(s@.take(i as int), self.banned_chars@),
                forall|c: char|
                    #![trigger self.set@.contains(c)]
                    #![trigger set0.contains(c)]
                    self.set@.contains(c) <==> set0.contains(c) || (s@.take(i as int).contains(c)
                        && !self.banned_chars@.contains(c)),
            decreases s.len() - i,
        {
            let ghost pre = self.set@;
            let c = s[i];
            if !contains_char(&self.banned_chars, c) {
                self.set.push(c);
            }
            proof {
                assert(s@.take((i + 1) as int) =~= s@.take(i as int).push(c));
                assert forall|x: char|
                    #![trigger s@.take((i + 1) as int).contains(x)]
                    #![trigger s@.take(i as int).contains(x)]
                    s@.take((i + 1) as int).contains(x) <==> (s@.take(i as int).contains(x) || x
                    == c) by {
                    lemma_push_contains(s@.take(i as int), c, x);
                }
                lemma_keep_unbanned_snoc(s@.take(i as int), c, self.banned_chars@);
                if !self.banned_chars@.contains(c) {
                    assert(self.set@ == pre.push(c));
                    assert(pre.push(c) =~= pre + seq![c]);
                    assert(set0 + (keep_unbanned(s@.take(i as int), self.banned_chars@)
                        + seq![c]) =~= (set0 + keep_unbanned(
                        s@.take(i as int),
                        self.banned_chars@,
                    )) + seq![c]);
                } else {
                    assert(keep_unbanned(s@.take(i as int), self.banned_chars@)
                        + Seq::<char>::empty() =~= keep_unbanned(
                        s@.take(i as int),
                        self.banned_chars@,
                    ));
                }
                assert forall|z: char|
                    #![trigger self.set@.contains(z)]
                    #![trigger set0.contains(z)]
                    self.set@.contains(z) <==> (set0.contains(z) || (s@.take(
                        (i + 1) as int,
                    ).contains(z) && !self.banned_chars@.contains(z))) by {
                    lemma_push_contains(s@.take(i as int), c, z);
                    if !self.banned_chars@.contains(c) {
                        lemma_push_contains(pre, c, z);
                    }
                    assert(pre.contains(z) <==> set0.contains(z) || (s@.take(i as int).contains(z)
                        && !self.banned_chars@.contains(z)));
                }
            }
            i = i + 1;
        }
        proof {
            assert(s@.take(s.len() as int) =~= s@);
        }
    }

    /// Remove every occurrence of a character from the pool (the other
    /// entries keep their order and multiplicity) and ban it for good.
    pub fn ban_char(&mut self, c: char)
        ensures
            final(self).banned_chars@ == old(self).banned_chars@.push(c),
            final(self).set@ == remove_all(old(self).set@, c),
            forall|x: char|
                final(self).set@.contains(x) <==> old(self).set@.contains(x) && x != c,
    {
        let ghost set0 = self.set@;
        let mut kept: Vec<char> = Vec::new();
        let mut i: usize = 0;
        while i < self.set.len()
            invariant
                i <= self.set@.len(),
                self.set@ == set0,
                kept@ == remove_all(set0.take(i as int), c),
                forall|x: char|
                    kept@.contains(x) <==> set0.take(i as int).contains(x) && x != c,
            decreases self.set@.len() - i,
        {
            let ghost pre = kept@;
            let x = self.set[i];
            if x != c {
                kept.push(x);
            }
            proof {
                assert(set0.take((i + 1) as int) =~= set0.take(i as int).push(x));
                assert forall|z: char|
                    #![trigger set0.take((i + 1) as int).contains(z)]
                    #![trigger set0.take(i as int).contains(z)]
                    set0.take((i + 1) as int).contains(z) <==> (set0.take(i as int).contains(z)
                    || z == x) by {
                    lemma_push_contains(set0.take(i as int), x, z);
                }
                lemma_remove_all_snoc(set0.take(i as int), x, c);
                if x != c {
                    assert(kept@ == pre.push(x));
                    assert(pre.push(x) =~= pre + seq![x]);
                    assert forall|z: char|
                        #![trigger kept@.contains(z)]
                        #![trigger pre.contains(z)]
                        kept@.contains(z) <==> (pre.contains(z) || z == x) by {
                        lemma_push_contains(pre, x, z);
                    }
                } else {
                    assert(remove_all(set0.take(i as int), c) + Seq::<char>::empty()
                        =~= remove_all(set0.take(i as int), c));
                }
            }
            i = i + 1;
        }
        proof {
            assert(set0.take(self.set@.len() as int) =~= set0);
        }
        self.set = kept;
        self.banned_chars.push(c);
    }

    /// A uniformly chosen character from the pool, or nothing when it is
    /// empty.
    pub fn rand_char(&self, rng: &mut rand::rngs::ThreadRng) -> (r: Option<char>)
        ensures
            r is Some <==> self.set@.len() > 0,
            r is Some ==> self.set@.contains(r->0),
    {
        if self.set.len() == 0 {
            None
        } else {
            let i = rng_range_usize(rng, 0, self.set.len());
            proof {
                assert(self.set@.contains(self.set@[i as int]));
            }
            Some(self.set[i])
        }
    }
}

/// The non-bracket characters of a string.
pub open spec fn nonbracket_chars(s: Seq<char>) -> Set<char> {
    s.to_set().remove('[').remove(']')
}

/// The candidate key characters observed once `k` rule bodies have been
/// processed: every non-bracket character of the start string and of the
/// last `k` bodies (bodies are processed newest first).
pub open spec fn observed_after(start: Seq<char>, bodies: Seq<Vec<char>>, k: int) -> Set<char>
    decreases k,
{
    if k <= 0 {
        nonbracket_chars(start)
    } else {
        observed_after(start, bodies, k - 1).union(nonbracket_chars(bodies[bodies.len() - k]@))
    }
}

/// Whether key assignment is bound to succeed: the k-th key is drawn from
/// the observed pool with the k earlier (pairwise distinct) keys removed,
/// so whichever keys the random draws pick, assignment succeeds exactly
/// when every such pool holds more than k characters — a condition on the
/// inputs alone.
pub open spec fn keys_available(start: Seq<char>, bodies: Seq<Vec<char>>) -> bool {
    forall|k: int| 0 <= k < bodies.len() ==> observed_after(start, bodies, k).len() > k
}

proof fn lemma_observed_grows(start: Seq<char>, bodies: Seq<Vec<char>>, k: int)
    requires
        0 <= k,
    ensures
        nonbracket_chars(start).subset_of(observed_after(start, bodies, k)),
        observed_after(start, bodies, k).finite(),
    decreases k,
{
    if k > 0 {
        lemma_observed_grows(start, bodies, k - 1);
    }
}

/// A start string with at least as many distinct non-bracket characters
/// as there are rule bodies always hosts every key: key assignment never
/// fails on such inputs, whatever the random draws pick.
pub proof fn lemma_keys_available_from_start(start: Seq<char>, bodies: Seq<Vec<char>>)
    requires
        nonbracket_chars(start).len() >= bodies.len(),
    ensures
        keys_available(start, bodies),
{
    assert forall|k: int| 0 <= k < bodies.len() implies observed_after(start, bodies, k).len()
        > k by {
        lemma_observed_grows(start, bodies, k);
        lemma_len_subset(nonbracket_chars(start), observed_after(start, bodies, k));
    }
}

/// Assign a key to every pending rule body, newest first: each key is
/// drawn from the pool of characters observed so far, then banned so no
/// key repeats, and the body's own characters join the pool. Fails (for
/// the caller to retry) exactly when the pool runs dry, which depends on
/// the inputs alone, never on the random draws.
pub fn try_to_create_rule_map(
    start: &Vec<char>,
    rule_strings: Vec<Vec<char>>,
    rng: &mut rand::rngs::ThreadRng,
) -> (r: Option<Vec<(char, Vec<char>)>>)
    ensures
        r is Some <==> keys_available(start@, rule_strings@),
        match r {
            Some(rs) => {
                &&& rules_wf(start@, rs@)
                &&& rs@.len() == rule_strings@.len()
                &&& forall|i: int|
                    0 <= i < rs@.len() ==> (#[trigger] rs@[i].1)@ == rule_strings@[rs@.len() - 1
                        - i]@
            },
            None => true,
        },
{
    let ghost orig = rule_strings@;
    let mut banned: Vec<char> = Vec::new();
    banned.push('[');
    banned.push(']');
    let mut used_chars = CharSet::new(banned);
    let ghost set_init = used_chars.set@;
    used_chars.add_chars(start);
    let mut all_rules: Vec<(char, Vec<char>)> = Vec::new();
    let mut pending = rule_strings;
    let ghost mut keyset: Set<char> = Set::empty();
    proof {
        assert(used_chars.banned_chars@[0] == '[');
        assert(used_chars.banned_chars@[1] == ']');
        assert(used_chars.banned_chars@.contains('['));
        assert(used_chars.banned_chars@.contains(']'));
        assert forall|c: char| #[trigger]
            used_chars.banned_chars@.contains(c) implies c == '[' || c == ']' by {
            let j = choose|j: int|
                0 <= j < used_chars.banned_chars@.len() && used_chars.banned_chars@[j] == c;
        }
        assert forall|c: char| #[trigger]
            used_chars.set@.contains(c) implies !used_chars.banned_chars@.contains(c)
            && start@.contains(c) by {
            assert(!set_init.contains(c));
        }
        assert forall|c: char|
            #![trigger used_chars.set@.contains(c)]
            #![trigger observed_after(start@, orig, 0).contains(c)]
            used_chars.set@.contains(c) <==> observed_after(start@, orig, 0).contains(c)
                && !keyset.contains(c) by {
            assert(!set_init.contains(c));
        }
    }
    while pending.len() > 0
        invariant
            orig == rule_strings@,
            all_rules@.len() + pending@.len() == orig.len(),
            pending@ == orig.take(pending@.len() as int),
            forall|i: int|
                0 <= i < all_rules@.len() ==> (#[trigger] all_rules@[i].1)@ == orig[orig.len() - 1
                    - i]@,
            rules_wf(start@, all_rules@),
            used_chars.banned_chars@.contains('['),
            used_chars.banned_chars@.contains(']'),
            forall|j: int|
                0 <= j < all_rules@.len() ==> used_chars.banned_chars@.contains(
                    (#[trigger] all_rules@[j]).0,
                ),
            forall|c: char|
                #[trigger] used_chars.set@.contains(c) ==> !used_chars.banned_chars@.contains(c)
                    && (start@.contains(c) || exists|j: int|
                    0 <= j < all_rules@.len() && (#[trigger] all_rules@[j].1)@.contains(c)),
            keyset.finite(),
            keyset.len() == all_rules@.len(),
            keyset.subset_of(observed_after(start@, orig, all_rules@.len() as int)),
            observed_after(start@, orig, all_rules@.len() as int).finite(),
            forall|c: char|
                #[trigger] used_chars.banned_chars@.contains(c) <==> (c == '[' || c == ']'
                    || keyset.contains(c)),
            forall|c: char|
                #![trigger used_chars.set@.contains(c)]
                #![trigger keyset.contains(c)]
                used_chars.set@.contains(c) <==> observed_after(
                    start@,
                    orig,
                    all_rules@.len() as int,
                ).contains(c) && !keyset.contains(c),
            forall|k: int|
                0 <= k < all_rules@.len() ==> observed_after(start@, orig, k).len() > k,
        decreases pending@.len(),
    {
        let ghost rules_pre = all_rules@;
        let rule_string = pending.pop().unwrap();
        proof {
            assert(rule_string@ == orig[pending@.len() as int]@);
            assert(orig.take((pending@.len() + 1) as int).subrange(0, pending@.len() as int)
                =~= orig.take(pending@.len() as int));
            assert(rule_string@ == orig[orig.len() - 1 - rules_pre.len()]@);
        }
        let ghost banned_pre = used_chars.banned_chars@;
        let ghost set_pre = used_chars.set@;
        match used_chars.rand_char(rng) {
            Some(rule_key) => {
                used_chars.ban_char(rule_key);
                let ghost set_mid = used_chars.set@;
                used_chars.add_chars(&rule_string);
                all_rules.push((rule_key, rule_string));
                proof {
                    let n = rules_pre.len() as int;
                    assert(all_rules@ == rules_pre.push((rule_key, rule_string)));
                    assert(forall|i: int|
                        0 <= i < n ==> (#[trigger] all_rules@[i]) == rules_pre[i]);
                    assert(all_rules@[n].0 == rule_key);
                    assert(all_rules@[n].1 == rule_string);
                    assert(used_chars.banned_chars@ == banned_pre.push(rule_key));
                    lemma_push_contains(banned_pre, rule_key, '[');
                    lemma_push_contains(banned_pre, rule_key, ']');
                    assert forall|j: int|
                        0 <= j < all_rules@.len() implies used_chars.banned_chars@.contains(
                        (#[trigger] all_rules@[j]).0,
                    ) by {
                        lemma_push_contains(banned_pre, rule_key, all_rules@[j].0);
                    }
                    // soundness of the freshly assigned key
                    assert(set_pre.contains(rule_key));
                    assert(!banned_pre.contains(rule_key));
                    assert forall|i: int| 0 <= i < all_rules@.len() implies #[trigger] key_ok(
                        start@,
                        all_rules@,
                        i,
                    ) by {
                        if i < n {
                            assert(key_ok(start@, rules_pre, i));
                            if !start@.contains(all_rules@[i].0) {
                                let j = choose|j: int|
                                    0 <= j < i && (#[trigger] rules_pre[j].1)@.contains(
                                        rules_pre[i].0,
                                    );
                                assert(all_rules@[j].1@.contains(all_rules@[i].0));
                            }
                        } else {
                            if !start@.contains(rule_key) {
                                let j = choose|j: int|
                                    0 <= j < n && (#[trigger] rules_pre[j].1)@.contains(rule_key);
                                assert(all_rules@[j].1@.contains(all_rules@[i].0));
                            }
                            assert(forall|j: int|
                                0 <= j < n ==> (#[trigger] all_rules@[j].0) != rule_key);
                        }
                    }
                    // the refilled pool still only holds sound candidates
                    assert forall|c: char| #[trigger]
                        used_chars.set@.contains(c) implies !used_chars.banned_chars@.contains(c)
                        && (start@.contains(c) || exists|j: int|
                        0 <= j < all_rules@.len() && (#[trigger] all_rules@[j].1)@.contains(
                            c,
                        )) by {
                        lemma_push_contains(banned_pre, rule_key, c);
                        if set_mid.contains(c) {
                            assert(set_pre.contains(c) && c != rule_key);
                            if !start@.contains(c) {
                                let j = choose|j: int|
                                    0 <= j < n && (#[trigger] rules_pre[j].1)@.contains(c);
                                assert(all_rules@[j].1@.contains(c));
                            }
                        } else {
                            assert(rule_string@.contains(c) && !set_mid.contains(c));
                            assert(all_rules@[n].1@.contains(c));
                        }
                    }
                    // pool bookkeeping: the k-th pool had more than k
                    // characters (the drawn key on top of the k earlier
                    // ones), and the refilled pool is the next observed
                    // set minus the grown key set
                    let obs_n = observed_after(start@, orig, n);
                    let obs_n1 = observed_after(start@, orig, n + 1);
                    assert(obs_n1 == obs_n.union(nonbracket_chars(orig[orig.len() - (n + 1)]@)));
                    assert(orig[orig.len() - (n + 1)]@ == rule_string@);
                    let keyset_pre = keyset;
                    assert(obs_n.contains(rule_key) && !keyset_pre.contains(rule_key));
                    assert(keyset_pre.insert(rule_key).subset_of(obs_n));
                    lemma_len_subset(keyset_pre.insert(rule_key), obs_n);
                    assert(keyset_pre.insert(rule_key).len() == n + 1);
                    assert(obs_n.len() > n);
                    keyset = keyset.insert(rule_key);
                    assert(keyset.len() == n + 1);
                    assert(keyset.subset_of(obs_n1));
                    assert(obs_n1.finite());
                    assert forall|c: char| #[trigger]
                        used_chars.banned_chars@.contains(c) <==> (c == '[' || c == ']'
                        || keyset.contains(c)) by {
                        lemma_push_contains(banned_pre, rule_key, c);
                    }
                    assert forall|c: char|
                        #![trigger used_chars.set@.contains(c)]
                        #![trigger keyset.contains(c)]
                        used_chars.set@.contains(c) <==> obs_n1.contains(c) && !keyset.contains(
                        c,
                    ) by {
                        lemma_push_contains(banned_pre, rule_key, c);
                        assert(set_mid.contains(c) <==> set_pre.contains(c) && c != rule_key);
                        assert(used_chars.set@.contains(c) <==> set_mid.contains(c) || (
                        rule_string@.contains(c) && !used_chars.banned_chars@.contains(c)));
                        assert(nonbracket_chars(rule_string@).contains(c) <==> rule_string@.contains(
                            c,
                        ) && c != '[' && c != ']');
                    }
                    assert forall|k: int|
                        0 <= k < all_rules@.len() implies observed_after(start@, orig, k).len()
                        > k by {
                    }
                }
            },
            None => {
                proof {
                    let k = all_rules@.len() as int;
                    let obs = observed_after(start@, orig, k);
                    assert(used_chars.set@.len() == 0);
                    assert forall|c: char| #[trigger] obs.contains(c) implies keyset.contains(
                        c,
                    ) by {
                        if !keyset.contains(c) {
                            assert(used_chars.set@.contains(c));
                        }
                    }
                    assert(obs.subset_of(keyset));
                    lemma_len_subset(obs, keyset);
                    assert(obs.len() <= k);
                    assert(0 <= k < orig.len());
                    assert(!keys_available(start@, orig));
                }
                return None;
            },
        }
    }
    proof {
        assert(all_rules@.len() == orig.len());
        assert(keys_available(start@, orig));
    }
    Some(all_rules)
}

/// Every character of the string belongs to the command alphabet.
pub open spec fn all_alpha(s: Seq<char>) -> bool {
    forall|k: int| 0 <= k < s.len() ==> in_alphabet(#[trigger] s[k])
}

/// How many times `ch` occurs in `s`.
pub open spec fn count_c(s: Seq<char>, ch: char) -> int
    decreases s.len(),
{
    if s.len() == 0 {
        0
    } else {
        (if s[0] == ch {
            1int
        } else {
            0int
        }) + count_c(s.skip(1), ch)
    }
}

/// The brackets nest properly: every prefix has at least as many opening
/// as closing brackets, and the whole string has equally many of each.
pub open spec fn properly_nested(s: Seq<char>) -> bool {
    &&& count_c(s, '[') == count_c(s, ']')
    &&& forall|k: int|
        0 <= k <= s.len() ==> count_c(#[trigger] s.take(k), '[') >= count_c(s.take(k), ']')
}

proof fn lemma_count_c_concat(a: Seq<char>, b: Seq<char>, ch: char)
    ensures
        count_c(a + b, ch) == count_c(a, ch) + count_c(b, ch),
    decreases a.len(),
{
    if a.len() == 0 {
        assert(a + b =~= b);
    } else {
        assert((a + b)[0] == a[0]);
        assert((a + b).skip(1) =~= a.skip(1) + b);
        lemma_count_c_concat(a.skip(1), b, ch);
    }
}

/// Occurrence counts of a prefix, across one insertion: prefixes that end
/// before the insertion point are untouched, later ones gain the inserted
/// character once.
proof fn lemma_count_c_take_insert(t: Seq<char>, i: int, a: char, ch: char, k: int)
    requires
        0 <= i <= t.len(),
        0 <= k <= t.len() + 1,
    ensures
        count_c(t.insert(i, a).take(k), ch) == if k <= i {
            count_c(t.take(k), ch)
        } else {
            count_c(t.take(k - 1), ch) + (if a == ch {
                1int
            } else {
                0int
            })
        },
{
    let t2 = t.insert(i, a);
    t.insert_ensures(i, a);
    if k <= i {
        assert(t2.take(k) =~= t.take(k));
    } else {
        assert(t2.take(k) =~= (t.take(i) + seq![a]) + t.subrange(i, k - 1));
        lemma_count_c_concat(t.take(i) + seq![a], t.subrange(i, k - 1), ch);
        lemma_count_c_concat(t.take(i), seq![a], ch);
        assert(seq![a].skip(1) =~= Seq::<char>::empty());
        assert(count_c(Seq::<char>::empty(), ch) == 0);
        assert(count_c(seq![a], ch) == if a == ch {
            1int
        } else {
            0int
        });
        assert(t.take(k - 1) =~= t.take(i) + t.subrange(i, k - 1));
        lemma_count_c_concat(t.take(i), t.subrange(i, k - 1), ch);
    }
}

/// Inserting a non-bracket character anywhere keeps the brackets nested.
proof fn lemma_nested_insert_plain(s: Seq<char>, i: int, c: char)
    requires
        properly_nested(s),
        !is_bracket(c),
        0 <= i <= s.len(),
    ensures
        properly_nested(s.insert(i, c)),
{
    let s2 = s.insert(i, c);
    assert forall|k: int| 0 <= k <= s2.len() implies count_c(#[trigger] s2.take(k), '[')
        >= count_c(s2.take(k), ']') by {
        lemma_count_c_take_insert(s, i, c, '[', k);
        lemma_count_c_take_insert(s, i, c, ']', k);
    }
    lemma_count_c_take_insert(s, i, c, '[', s2.len() as int);
    lemma_count_c_take_insert(s, i, c, ']', s2.len() as int);
    assert(s2.take(s2.len() as int) =~= s2);
    assert(s.take(s.len() as int) =~= s);
}

/// Splicing in one bracket pair, the opening bracket at `o` and the
/// closing one just after position `c` of the widened string, keeps the
/// brackets properly nested whenever `o <= c`.
proof fn lemma_nested_insert_pair(s: Seq<char>, o: int, c: int)
    requires
        properly_nested(s),
        0 <= o <= c < s.len(),
    ensures
        properly_nested(s.insert(o, '[').insert(c + 1, ']')),
{
    let s1 = s.insert(o, '[');
    let s2 = s1.insert(c + 1, ']');
    assert forall|k: int| 0 <= k <= s2.len() implies count_c(#[trigger] s2.take(k), '[')
        >= count_c(s2.take(k), ']') by {
        lemma_count_c_take_insert(s1, c + 1, ']', '[', k);
        lemma_count_c_take_insert(s1, c + 1, ']', ']', k);
        if k <= c + 1 {
            lemma_count_c_take_insert(s, o, '[', '[', k);
            lemma_count_c_take_insert(s, o, '[', ']', k);
            if k > o {
                assert(count_c(s.take(k - 1), '[') >= count_c(s.take(k - 1), ']'));
            }
        } else {
            lemma_count_c_take_insert(s, o, '[', '[', k - 1);
            lemma_count_c_take_insert(s, o, '[', ']', k - 1);
            assert(count_c(s.take(k - 2), '[') >= count_c(s.take(k - 2), ']'));
        }
    }
    lemma_count_c_take_insert(s1, c + 1, ']', '[', s2.len() as int);
    lemma_count_c_take_insert(s1, c + 1, ']', ']', s2.len() as int);
    lemma_count_c_take_insert(s, o, '[', '[', s1.len() as int);
    lemma_count_c_take_insert(s, o, '[', ']', s1.len() as int);
    assert(s2.take(s2.len() as int) =~= s2);
    assert(s1.take(s1.len() as int) =~= s1);
    assert(s.take(s.len() as int) =~= s);
}

/// Inserting an alphabet character keeps the string inside the alphabet.
proof fn lemma_insert_alpha(s: Seq<char>, i: int, c: char)
    requires
        all_alpha(s),
        in_alphabet(c),
        0 <= i <= s.len(),
    ensures
        all_alpha(s.insert(i, c)),
{
    s.insert_ensures(i, c);
    assert forall|k: int| 0 <= k < s.insert(i, c).len() implies in_alphabet(
        #[trigger] s.insert(i, c)[k],
    ) by {
        if k < i {
        } else if k == i {
        } else {
            assert(s.insert(i, c)[(k - 1) + 1] == s[k - 1]);
        }
    }
}

/// The five-symbol command alphabet the generator draws from.
fn possible_char(i: usize) -> (r: char)
    requires
        i < 5,
    ensures
        in_alphabet(r),
        !is_bracket(r),
{
    match i {
        0 => 'F',
        1 => '+',
        2 => '-',
        3 => 'A',
        _ => 'B',
    }
}

/// Fixed-point probability that any given candidate position receives a
/// bracket pair: one in six, mirroring one extra slot beside the five
/// plain symbols.
pub const SQUARE_BRACKET_CHANCE: i64 = 10922;

/// A biased coin: true with the given fixed-point probability; certain
/// at the ends of the probability range.
pub fn chance(percentage: i64, rng: &mut rand::rngs::ThreadRng) -> (r: bool)
    ensures
        percentage <= 0 ==> !r,
        percentage >= FP ==> r,
{
    let num = rng_range_i64(rng, 0, FP);
    num < percentage
}

/// The grammar's global turn angle, in fixed-point radians: with the
/// configured probability a uniformly random value from the open range,
/// otherwise one of the preset angles.
pub fn rand_angle(params: &Parameters, rng: &mut rand::rngs::ThreadRng) -> (r: i64)
    ensures
        MIN_ANGLE <= r <= MAX_ANGLE,
{
    if chance(params.random_angle_chance, rng) {
        rng_range_i64(rng, MIN_ANGLE, MAX_ANGLE)
    } else {
        preset_angle(rng_range_usize(rng, 0, NUM_PRESET_ANGLES))
    }
}

/// A random command string of exactly the requested length: a core of
/// plain symbols with properly nested bracket pairs spliced in one at a
/// time. An empty core is redrawn; past the attempt cap the builder falls
/// back to a plain run of forward moves (never reached in practice).
pub fn rand_lsystem_string(len: usize, rng: &mut rand::rngs::ThreadRng) -> (r: Vec<char>)
    requires
        1 <= len,
        len <= usize::MAX - 2,
    ensures
        r@.len() == len,
        all_alpha(r@),
        properly_nested(r@),
        exists|k: int| 0 <= k < r@.len() && !is_bracket(#[trigger] r@[k]),
{
    let mut attempts: usize = 0;
    while attempts < MAX_STRING_ATTEMPTS
        invariant
            1 <= len <= usize::MAX - 2,
        decreases MAX_STRING_ATTEMPTS - attempts,
    {
        attempts = attempts + 1;
        let mut num_bracket_pairs: usize = 0;
        let half = len / 2;
        let mut k: usize = 0;
        while k < half
            invariant
                num_bracket_pairs <= k <= half,
            decreases half - k,
        {
            if chance(SQUARE_BRACKET_CHANCE, rng) {
                num_bracket_pairs = num_bracket_pairs + 1;
            }
            k = k + 1;
        }
        proof {
            assert(num_bracket_pairs * 2 <= len) by (nonlinear_arith)
                requires
                    num_bracket_pairs <= len / 2,
            ;
        }
        let num_random_letters = len - num_bracket_pairs * 2;
        let mut string: Vec<char> = Vec::new();
        let mut k: usize = 0;
        while k < num_random_letters
            invariant
                string@.len() == k <= num_random_letters,
                all_alpha(string@),
                properly_nested(string@),
                forall|j: int| 0 <= j < string@.len() ==> !is_bracket(#[trigger] string@[j]),
            decreases num_random_letters - k,
        {
            let ghost pre = string@;
            let c = possible_char(rng_range_usize(rng, 0, 5));
            string.push(c);
            proof {
                assert(string@ =~= pre.insert(pre.len() as int, c));
                lemma_nested_insert_plain(pre, pre.len() as int, c);
            }
            k = k + 1;
        }
        if string.len() == 0 {
            continue ;
        }
        let mut p: usize = 0;
        while p < num_bracket_pairs
            invariant
                p <= num_bracket_pairs,
                num_bracket_pairs * 2 <= len,
                num_random_letters == len - num_bracket_pairs * 2,
                1 <= num_random_letters,
                string@.len() == num_random_letters + p * 2,
                all_alpha(string@),
                properly_nested(string@),
                exists|j: int| 0 <= j < string@.len() && !is_bracket(#[trigger] string@[j]),
            decreases num_bracket_pairs - p,
        {
            let ghost pre = string@;
            let ghost w = choose|j: int| 0 <= j < pre.len() && !is_bracket(#[trigger] pre[j]);
            let opening_location = rng_range_usize(rng, 0, string.len());
            let closing_location = rng_range_usize(rng, opening_location, string.len());
            string.insert(opening_location, '[');
            proof {
                lemma_insert_alpha(pre, opening_location as int, '[');
                lemma_nested_insert_pair(pre, opening_location as int, closing_location as int);
                pre.insert_ensures(opening_location as int, '[');
            }
            let ghost mid = string@;
            let ghost w1: int = if w < opening_location {
                w
            } else {
                w + 1
            };
            string.insert(closing_location + 1, ']');
            proof {
                lemma_insert_alpha(mid, (closing_location + 1) as int, ']');
                assert(!is_bracket(mid[w1]));
                mid.insert_ensures((closing_location + 1) as int, ']');
                if w1 < closing_location + 1 {
                    assert(string@[w1] == mid[w1]);
                } else {
                    assert(string@[w1 + 1] == mid[w1]);
                }
            }
            p = p + 1;
        }
        return string;
    }
    let mut string: Vec<char> = Vec::new();
    let mut k: usize = 0;
    while k < len
        invariant
            string@.len() == k <= len,
            all_alpha(string@),
            properly_nested(string@),
            forall|j: int| 0 <= j < string@.len() ==> !is_bracket(#[trigger] string@[j]),
        decreases len - k,
    {
        let ghost pre = string@;
        string.push('F');
        proof {
            assert(string@ =~= pre.insert(pre.len() as int, 'F'));
            lemma_nested_insert_plain(pre, pre.len() as int, 'F');
        }
        k = k + 1;
    }
    string
}

/// A batch of random rule bodies; when none of them holds a forward-move
/// command, one is forced into a random position of a random body, so
/// every grammar eventually draws something.
pub fn create_random_rule_strings(
    num_rules: usize,
    params: &Parameters,
    rng: &mut rand::rngs::ThreadRng,
) -> (r: Vec<Vec<char>>)
    requires
        num_rules >= 1,
        params_wf(*params),
    ensures
        r@.len() == num_rules,
        forall|i: int|
            0 <= i < r@.len() ==> params.min_rule_length <= (#[trigger] r@[i])@.len()
                <= params.max_rule_length,
        forall|i: int| 0 <= i < r@.len() ==> all_alpha((#[trigger] r@[i])@),
        forall|i: int| 0 <= i < r@.len() ==> properly_nested((#[trigger] r@[i])@),
        exists|i: int| 0 <= i < r@.len() && (#[trigger] r@[i])@.contains('F'),
{
    let mut rule_strings: Vec<Vec<char>> = Vec::new();
    let mut k: usize = 0;
    while k < num_rules
        invariant
            rule_strings@.len() == k <= num_rules,
            params_wf(*params),
            forall|i: int|
                0 <= i < k ==> params.min_rule_length <= (#[trigger] rule_strings@[i])@.len()
                    < params.max_rule_length,
            forall|i: int| 0 <= i < k ==> all_alpha((#[trigger] rule_strings@[i])@),
            forall|i: int| 0 <= i < k ==> properly_nested((#[trigger] rule_strings@[i])@),
        decreases num_rules - k,
    {
        let len = rng_range_usize(rng, params.min_rule_length, params.max_rule_length);
        let rule_string = rand_lsystem_string(len, rng);
        rule_strings.push(rule_string);
        k = k + 1;
    }
    let mut has_f = false;
    let mut k: usize = 0;
    while k < rule_strings.len()
        invariant
            k <= rule_strings@.len(),
            has_f ==> exists|i: int|
                0 <= i < rule_strings@.len() && (#[trigger] rule_strings@[i])@.contains('F'),
        decreases rule_strings@.len() - k,
    {
        if contains_char(&rule_strings[k], 'F') {
            proof {
                assert(rule_strings@[k as int]@.contains('F'));
            }
            has_f = true;
        }
        k = k + 1;
    }
    if !has_f {
        let ghost rules_pre = rule_strings@;
        let idx = rng_range_usize(rng, 0, rule_strings.len());
        let mut body = rule_strings.remove(idx);
        let ghost body_pre = body@;
        let location = rng_range_usize(rng, 0, body.len());
        body.insert(location, 'F');
        proof {
            lemma_insert_alpha(body_pre, location as int, 'F');
            lemma_nested_insert_plain(body_pre, location as int, 'F');
            body_pre.insert_ensures(location as int, 'F');
            assert(body@[location as int] == 'F');
            assert(body@.contains('F'));
        }
        rule_strings.insert(idx, body);
        proof {
            rules_pre.remove(idx as int).insert_ensures(idx as int, body);
            assert(rule_strings@[idx as int] == body);
            assert forall|i: int|
                0 <= i < rule_strings@.len() implies params.min_rule_length <= (
            #[trigger] rule_strings@[i])@.len() <= params.max_rule_length && all_alpha(
                rule_strings@[i]@,
            ) && properly_nested(rule_strings@[i]@) by {
                if i < idx {
                    assert(rule_strings@[i] == rules_pre.remove(idx as int)[i]);
                    assert(rules_pre.remove(idx as int)[i] == rules_pre[i]);
                } else if i > idx {
                    assert(rule_strings@[(i - 1) + 1] == rules_pre.remove(idx as int)[i - 1]);
                    assert(rules_pre.remove(idx as int)[i - 1] == rules_pre[i]);
                }
            }
        }
    }
    rule_strings
}

/// A fresh random grammar: a random angle and rule count, then repeated
/// draws of rule bodies and a start string until key assignment succeeds.
/// Past the attempt cap (never reached in practice) it falls back to the
/// minimal single-move grammar.
pub fn rand_lsystem(params: &Parameters, rng: &mut rand::rngs::ThreadRng) -> (r: LSystem)
    requires
        params_wf(*params),
    ensures
        lsystem_wf(r),
        r.string@ == r.seed@,
        properly_nested(r.seed@),
        forall|i: int| 0 <= i < r.rules@.len() ==> properly_nested((#[trigger] r.rules@[i].1)@),
        (params.min_rules <= r.rules@.len() < params.max_rules && params.min_start_length
            <= r.seed@.len() < params.max_start_length && forall|i: int|
            0 <= i < r.rules@.len() ==> params.min_rule_length <= (#[trigger] r.rules@[i].1)@.len()
                <= params.max_rule_length) || (r.rules@.len() == 0 && r.seed@ == seq!['F']),
{
    let angle = rand_angle(params, rng);
    let num_rules = rng_range_usize(rng, params.min_rules, params.max_rules);
    let mut attempts: usize = 0;
    while attempts < MAX_GENERATION_ATTEMPTS
        invariant
            params_wf(*params),
            MIN_ANGLE <= angle <= MAX_ANGLE,
            params.min_rules <= num_rules < params.max_rules,
        decreases MAX_GENERATION_ATTEMPTS - attempts,
    {
        attempts = attempts + 1;
        let rule_strings = create_random_rule_strings(num_rules, params, rng);
        let ghost bodies = rule_strings@;
        let num_start_chars = rng_range_usize(rng, params.min_start_length, params.max_start_length);
        let start = rand_lsystem_string(num_start_chars, rng);
        match try_to_create_rule_map(&start, rule_strings, rng) {
            Some(rule_map) => {
                proof {
                    let n = rule_map@.len() as int;
                    assert forall|i: int| 0 <= i < n implies (#[trigger] rule_map@[i].1)@.len()
                        >= 1 by {
                        assert(rule_map@[i].1@ == bodies[n - 1 - i]@);
                    }
                    assert forall|i: int| 0 <= i < n implies properly_nested(
                        (#[trigger] rule_map@[i].1)@,
                    ) && params.min_rule_length <= rule_map@[i].1@.len()
                        <= params.max_rule_length by {
                        assert(rule_map@[i].1@ == bodies[n - 1 - i]@);
                    }
                    let w = choose|i: int| 0 <= i < n && (#[trigger] bodies[i])@.contains('F');
                    assert(rule_map@[n - 1 - w].1@ == bodies[w]@);
                    assert(rule_map@[n - 1 - w].1@.contains('F'));
                }
                return LSystem::new(start, rule_map, angle);
            },
            None => {},
        }
    }
    let mut start: Vec<char> = Vec::new();
    start.push('F');
    proof {
        assert(start@[0] == 'F');
        assert(start@.contains('F'));
        let e = Seq::<char>::empty();
        assert(count_c(e, '[') == 0 && count_c(e, ']') == 0);
        assert forall|k: int| 0 <= k <= e.len() implies count_c(#[trigger] e.take(k), '[')
            >= count_c(e.take(k), ']') by {
            assert(e.take(k) =~= e);
        }
        assert(start@ =~= e.insert(0, 'F'));
        lemma_nested_insert_plain(e, 0, 'F');
    }
    LSystem::new(start, Vec::new(), angle)
}

} // verus!
