use vstd::arithmetic::div_mod::lemma_fundamental_div_mod_converse;
use vstd::prelude::*;

verus! {

broadcast use vstd::seq_lib::group_to_multiset_ensures;

/// An element that a priority queue orders by an integer key; smaller keys leave first.
pub trait Keyed: Copy {
    spec fn key(&self) -> int;

    fn priority(&self) -> (r: i128)
        ensures
            r as int == self.key(),
    ;
}

impl Keyed for i32 {
    open spec fn key(&self) -> int {
        *self as int
    }

    fn priority(&self) -> (r: i128) {
        *self as i128
    }
}

/// Index of the parent of slot `i` (for `i > 0`) in an array-backed binary tree.
pub open spec fn parent(i: int) -> int {
    (i - 1) / 2
}

/// The min-heap property: no slot holds a smaller key than its parent.
pub open spec fn heap_ordered<T: Keyed>(s: Seq<T>) -> bool {
    forall|i: int| 0 < i < s.len() ==> #[trigger] s[parent(i)].key() <= s[i].key()
}

/// `s` with the elements in slots `i` and `j` exchanged.
pub open spec fn swapped<T>(s: Seq<T>, i: int, j: int) -> Seq<T> {
    s.update(i, s[j]).update(j, s[i])
}

/// Sift-up from slot `i`: while the element there has a parent with a strictly greater key,
/// exchange the two and continue from the parent.
pub open spec fn sift_up<T: Keyed>(s: Seq<T>, i: int) -> Seq<T>
    decreases i,
{
    if i <= 0 || i >= s.len() || s[parent(i)].key() <= s[i].key() {
        s
    } else {
        sift_up(swapped(s, parent(i), i), parent(i))
    }
}

/// Slot `j` is slot `i` or one of its ancestors.
pub open spec fn on_path(j: int, i: int) -> bool
    decreases i,
{
    j == i || (i > 0 && on_path(j, parent(i)))
}

/// Sift-up from slot `i` keeps the length and leaves every slot off the path from `i` to
/// the root as it was.
pub proof fn lemma_sift_up_keeps_off_path<T: Keyed>(s: Seq<T>, i: int, j: int)
    requires
        0 <= j < s.len(),
        !on_path(j, i),
    ensures
        sift_up(s, i).len() == s.len(),
        sift_up(s, i)[j] == s[j],
    decreases i,
{
    if !(i <= 0 || i >= s.len() || s[parent(i)].key() <= s[i].key()) {
        lemma_sift_up_keeps_off_path(swapped(s, parent(i), i), parent(i), j);
    }
}

/// The child of slot `i` that sift-down compares against: the left one, unless the right
/// one exists and has a strictly smaller key.
pub open spec fn smaller_child<T: Keyed>(s: Seq<T>, i: int) -> int {
    if 2 * i + 2 < s.len() && s[2 * i + 1].key() > s[2 * i + 2].key() {
        2 * i + 2
    } else {
        2 * i + 1
    }
}

/// Sift-down from slot `i`: while the smaller child has a strictly smaller key than the
/// element there, exchange the two and continue from that child.
pub open spec fn sift_down<T: Keyed>(s: Seq<T>, i: int) -> Seq<T>
    decreases s.len() - i,
{
    if i < 0 || 2 * i + 1 >= s.len() || s[i].key() <= s[smaller_child(s, i)].key() {
        s
    } else {
        sift_down(swapped(s, i, smaller_child(s, i)), smaller_child(s, i))
    }
}

/// What is left for sift-down after the root is removed: the last element moved to the root.
pub open spec fn without_root<T>(s: Seq<T>) -> Seq<T> {
    s.update(0, s.last()).drop_last()
}

/// The root of a heap-ordered array holds a key no larger than the one in slot `i`.
pub proof fn lemma_root_is_least<T: Keyed>(s: Seq<T>, i: int)
    requires
        heap_ordered(s),
        0 <= i < s.len(),
    ensures
        s[0].key() <= s[i].key(),
    decreases i,
{
    if i > 0 {
        lemma_root_is_least(s, parent(i));
    }
}

/// The root of a non-empty heap-ordered array holds a least key.
pub proof fn lemma_root_is_min<T: Keyed>(s: Seq<T>)
    requires
        heap_ordered(s),
        s.len() > 0,
    ensures
        forall|i: int| 0 <= i < s.len() ==> s[0].key() <= #[trigger] s[i].key(),
{
    assert forall|i: int| 0 <= i < s.len() implies s[0].key() <= #[trigger] s[i].key() by {
        lemma_root_is_least(s, i);
    }
}

/// A min-priority queue: `enqueue` adds an element, `dequeue` removes one with the least
/// key, and `peek` shows the element that `dequeue` would remove.
pub trait PriorityQueue<T: Keyed>: Sized {
    /// The elements in queue order.
    spec fn items(&self) -> Seq<T>;

    /// The queue's internal ordering invariant.
    spec fn well_formed(&self) -> bool;

    /// Adds `ele` to the queue.
    fn enqueue(&mut self, ele: T)
        requires
            old(self).well_formed(),
            old(self).items().len() < usize::MAX,
        ensures
            final(self).well_formed(),
            final(self).items().len() == old(self).items().len() + 1,
            final(self).items() == sift_up(old(self).items().push(ele), old(self).items().len() as int),
            final(self).items().to_multiset() == old(self).items().to_multiset().insert(ele),
    ;

    /// Removes and returns the front element, one with the least key; `None` when empty.
    fn dequeue(&mut self) -> (r: Option<T>)
        requires
            old(self).well_formed(),
        ensures
            final(self).well_formed(),
            old(self).items().len() == 0 ==> r is None && final(self).items() == old(self).items(),
            old(self).items().len() > 0 ==> final(self).items().len() == old(self).items().len() - 1,
            old(self).items().len() > 0 ==> final(self).items() == sift_down(without_root(old(self).items()), 0),
            old(self).items().len() > 0 ==> r == Some(old(self).items()[0])
                && final(self).items().to_multiset()
                == old(self).items().to_multiset().remove(old(self).items()[0]),
            old(self).items().len() > 0 ==> forall|i: int|
                0 <= i < old(self).items().len() ==> old(self).items()[0].key()
                    <= #[trigger] old(self).items()[i].key(),
    ;

    /// Returns the element that `dequeue` would remove, without changing the queue.
    fn peek(&self) -> (r: Option<&T>)
        ensures
            self.items().len() == 0 ==> r is None,
            self.items().len() > 0 ==> r == Some(&self.items()[0]),
    ;
}

/// Successive dequeues come out in non-decreasing key order: once the front of `q1` is
/// removed, leaving `q2`, the front of `q2` has no smaller key.
pub proof fn lemma_dequeue_order<T: Keyed>(q1: Vec<T>, q2: Vec<T>)
    requires
        q1.well_formed(),
        q2.well_formed(),
        q1.items().len() > 0,
        q2.items().len() > 0,
        q2.items().to_multiset() == q1.items().to_multiset().remove(q1.items()[0]),
    ensures
        q1.items()[0].key() <= q2.items()[0].key(),
{
    let x = q2@[0];
    assert(q2@.contains(x));
    assert(q1@.to_multiset().remove(q1@[0]).count(x) > 0);
    assert(q1@.to_multiset().count(x) > 0);
    let k = choose|k: int| 0 <= k < q1@.len() && q1@[k] == x;
    lemma_root_is_min(q1@);
    assert(q1@[0].key() <= q1@[k].key());
}

fn swap_slots<T: Copy>(v: &mut Vec<T>, i: usize, j: usize)
    requires
        i < old(v)@.len(),
        j < old(v)@.len(),
    ensures
        final(v)@ == old(v)@.update(i as int, old(v)@[j as int]).update(j as int, old(v)@[i as int]),
        final(v)@.to_multiset() == old(v)@.to_multiset(),
{
    let a = v[i];
    let b = v[j];
    v.set(i, b);
    v.set(j, a);
    proof {
        let s = old(v)@;
        let s1 = s.update(i as int, b);
        assert(s1.to_multiset() == s.to_multiset().insert(b).remove(a));
        assert(final(v)@.to_multiset() == s1.to_multiset().insert(a).remove(s1[j as int]));
        assert(final(v)@.to_multiset() =~= s.to_multiset());
    }
}

impl<T: Keyed> PriorityQueue<T> for Vec<T> {
    open spec fn items(&self) -> Seq<T> {
        self@
    }

    open spec fn well_formed(&self) -> bool {
        heap_ordered(self@)
    }

    fn enqueue(&mut self, ele: T) {
        self.push(ele);
        let mut i: usize = self.len() - 1;
        let mut done = false;
        while i > 0 && !done
            invariant
                0 <= i < self@.len(),
                self@.len() == old(self)@.len() + 1,
                self@.to_multiset() == old(self)@.to_multiset().insert(ele),
                sift_up(self@, i as int) == sift_up(old(self)@.push(ele), old(self)@.len() as int),
                done ==> sift_up(self@, i as int) == self@,
                forall|j: int|
                    0 < j < self@.len() && (j != i || done) ==> #[trigger] self@[parent(j)].key()
                        <= self@[j].key(),
                i > 0 ==> forall|j: int|
                    0 < j < self@.len() && parent(j) == i ==> self@[parent(i as int)].key()
                        <= #[trigger] self@[j].key(),
            decreases i + if done { 0int } else { 1int },
        {
            let p: usize = (i - 1) / 2;
            if self[p].priority() > self[i].priority() {
                swap_slots(self, p, i);
                i = p;
            } else {
                done = true;
            }
        }
    }

    fn dequeue(&mut self) -> (r: Option<T>) {
        if self.len() == 0 {
            return None;
        }
        proof {
            lemma_root_is_min(self@);
        }
        let last: usize = self.len() - 1;
        swap_slots(self, 0, last);
        let r = self.pop();
        proof {
            let t = old(self)@.update(0, old(self)@[last as int]).update(last as int, old(self)@[0]);
            assert(self@ =~= t.remove(last as int));
            assert(self@ =~= without_root(old(self)@));
        }
        let n: usize = self.len();
        let mut i: usize = 0;
        let mut done = false;
        while i < n / 2 && !done
            invariant
                n == self@.len(),
                i < n || n == 0,
                self@.to_multiset() == old(self)@.to_multiset().remove(old(self)@[0]),
                sift_down(self@, i as int) == sift_down(without_root(old(self)@), 0),
                done ==> sift_down(self@, i as int) == self@,
                forall|j: int|
                    0 < j < n && (parent(j) != i || done) ==> #[trigger] self@[parent(j)].key()
                        <= self@[j].key(),
                forall|j: int|
                    0 < j < n && parent(j) == i && i > 0 ==> self@[parent(i as int)].key()
                        <= #[trigger] self@[j].key(),
            decreases n - i + if done { 0int } else { 1int },
        {
            let mut c: usize = 2 * i + 1;
            if c + 1 < n && self[c].priority() > self[c + 1].priority() {
                c = c + 1;
            }
            if self[i].priority() > self[c].priority() {
                swap_slots(self, i, c);
                i = c;
            } else {
                done = true;
            }
        }
        r
    }

    fn peek(&self) -> (r: Option<&T>) {
        if self.len() == 0 {
            None
        } else {
            Some(&self[0])
        }
    }
}

/// A position on the grid.
pub type Point = (i32, i32);

/// A named entity and its position.
pub type Entity = (String, Point);

pub open spec fn abs_diff(a: i32, b: i32) -> int {
    if a >= b {
        a - b
    } else {
        b - a
    }
}

/// Orthogonal (taxicab) distance between two points.
pub open spec fn orthogonal(p1: Point, p2: Point) -> int {
    abs_diff(p1.0, p2.0) + abs_diff(p1.1, p2.1)
}

fn wide_distance(p1: Point, p2: Point) -> (r: i64)
    ensures
        r == orthogonal(p1, p2),
{
    let dx: i64 = if p1.0 >= p2.0 {
        p1.0 as i64 - p2.0 as i64
    } else {
        p2.0 as i64 - p1.0 as i64
    };
    let dy: i64 = if p1.1 >= p2.1 {
        p1.1 as i64 - p2.1 as i64
    } else {
        p2.1 as i64 - p1.1 as i64
    };
    dx + dy
}

/// Returns the orthogonal distance `|x1 - x2| + |y1 - y2|` between two points.
pub fn distance(p1: Point, p2: Point) -> (r: i32)
    requires
        orthogonal(p1, p2) <= i32::MAX,
    ensures
        r == orthogonal(p1, p2),
{
    wide_distance(p1, p2) as i32
}

/// Orthogonal distance is symmetric, and zero exactly between equal points.
pub proof fn lemma_distance_symmetric(p1: Point, p2: Point)
    ensures
        orthogonal(p1, p2) == orthogonal(p2, p1),
        orthogonal(p1, p2) >= 0,
        orthogonal(p1, p2) == 0 <==> p1 == p2,
{
}

/// Why no enemy could be named for the distinguished ally.
#[derive(Debug, Clone, Copy, PartialEq, Eq, Structural)]
pub enum LocateError {
    /// No ally carries the distinguished name.
    MissingDistinguishedAlly,
    /// Every candidate pair was used up without settling the distinguished ally.
    ExhaustedCandidates,
}

/// The name of the distinguished ally.
pub open spec fn stark_name() -> Seq<char> {
    seq!['S', 't', 'a', 'r', 'k']
}

/// `i` is the first ally that carries the distinguished name.
pub open spec fn is_stark_index(allies: Seq<Entity>, i: int) -> bool {
    0 <= i < allies.len() && allies[i].0@ == stark_name() && forall|j: int|
        0 <= j < i ==> #[trigger] allies[j].0@ != stark_name()
}

/// A candidate is an (enemy index, ally index) pair.
pub type Candidate = (usize, usize);

/// All (enemy, ally) index pairs.
pub open spec fn all_candidates(n_enemies: nat, n_allies: nat) -> Set<Candidate> {
    Set::new(|c: Candidate| c.0 < n_enemies && c.1 < n_allies)
}

/// The order in which candidates are considered: by distance, then by enemy index, then
/// by ally index.
pub open spec fn rank(allies: Seq<Entity>, enemies: Seq<Entity>, c: Candidate) -> int {
    orthogonal(enemies[c.0 as int].1, allies[c.1 as int].1) * (enemies.len() * allies.len())
        + c.0 * allies.len() + c.1
}

/// `c` comes first among the candidates `s`.
pub open spec fn is_first(allies: Seq<Entity>, enemies: Seq<Entity>, s: Set<Candidate>, c: Candidate) -> bool {
    s.contains(c) && forall|x: Candidate| #[trigger] s.contains(x) ==> rank(allies, enemies, c) <= rank(allies, enemies, x)
}

/// Some accepted match already holds this enemy.
pub open spec fn enemy_taken(accepted: Seq<Candidate>, e: usize) -> bool {
    exists|k: int| 0 <= k < accepted.len() && #[trigger] accepted[k].0 == e
}

/// Some accepted match already holds this enemy or this ally.
pub open spec fn clashes(accepted: Seq<Candidate>, c: Candidate) -> bool {
    exists|k: int| 0 <= k < accepted.len() && (#[trigger] accepted[k].0 == c.0 || accepted[k].1 == c.1)
}

/// The greedy matching, run on the remaining candidates `s` with the matches accepted so
/// far: take the first candidate; one of the distinguished ally `stark` settles the result
/// if its enemy is free and is dropped otherwise; any other is accepted when neither of its
/// members is taken, and dropped otherwise. Yields the enemy index, or `None` when the
/// candidates run out.
pub open spec fn resolve(
    allies: Seq<Entity>,
    enemies: Seq<Entity>,
    stark: usize,
    s: Set<Candidate>,
    accepted: Seq<Candidate>,
) -> Option<usize>
    decreases s.len(),
{
    if s.finite() && exists|c: Candidate| is_first(allies, enemies, s, c) {
        let c = choose|c: Candidate| is_first(allies, enemies, s, c);
        let rest = s.remove(c);
        if c.1 == stark {
            if enemy_taken(accepted, c.0) {
                resolve(allies, enemies, stark, rest, accepted)
            } else {
                Some(c.0)
            }
        } else if clashes(accepted, c) {
            resolve(allies, enemies, stark, rest, accepted)
        } else {
            resolve(allies, enemies, stark, rest, accepted.push(c))
        }
    } else {
        None
    }
}

/// A result of `target_locator`, with the enemy's name as a sequence of characters.
pub open spec fn outcome(r: Result<(String, i32, i32), LocateError>) -> Result<(Seq<char>, i32, i32), LocateError> {
    match r {
        Ok((name, x, y)) => Ok((name@, x, y)),
        Err(e) => Err(e),
    }
}

/// What `target_locator` returns for the given allies and enemies.
pub open spec fn located(allies: Seq<Entity>, enemies: Seq<Entity>) -> Result<(Seq<char>, i32, i32), LocateError> {
    if exists|i: int| is_stark_index(allies, i) {
        let stark = choose|i: int| is_stark_index(allies, i);
        match resolve(allies, enemies, stark as usize, all_candidates(enemies.len(), allies.len()), seq![]) {
            Some(e) => Ok((enemies[e as int].0@, enemies[e as int].1.0, enemies[e as int].1.1)),
            None => Err(LocateError::ExhaustedCandidates),
        }
    } else {
        Err(LocateError::MissingDistinguishedAlly)
    }
}

/// A candidate in the queue, carrying its rank.
#[derive(Clone, Copy)]
struct Node {
    rank: i128,
    enemy: usize,
    ally: usize,
}

impl Keyed for Node {
    closed spec fn key(&self) -> int {
        self.rank as int
    }

    fn priority(&self) -> (r: i128) {
        self.rank
    }
}

spec fn node_of(allies: Seq<Entity>, enemies: Seq<Entity>, c: Candidate) -> Node {
    Node { rank: rank(allies, enemies, c) as i128, enemy: c.0, ally: c.1 }
}

/// The queue holds exactly one node for each candidate of `s`, each with its rank.
spec fn pool_matches(allies: Seq<Entity>, enemies: Seq<Entity>, h: Seq<Node>, s: Set<Candidate>) -> bool {
    &&& forall|n: Node| #[trigger] h.to_multiset().count(n) > 0 ==> s.contains((n.enemy, n.ally))
        && n == node_of(allies, enemies, (n.enemy, n.ally))
    &&& forall|c: Candidate| #[trigger] s.contains(c) ==> h.to_multiset().count(node_of(allies, enemies, c)) == 1
        && 0 <= rank(allies, enemies, c) <= i128::MAX
}

proof fn lemma_rank_injective(allies: Seq<Entity>, enemies: Seq<Entity>, c1: Candidate, c2: Candidate)
    requires
        c1.0 < enemies.len(),
        c1.1 < allies.len(),
        c2.0 < enemies.len(),
        c2.1 < allies.len(),
        rank(allies, enemies, c1) == rank(allies, enemies, c2),
    ensures
        c1 == c2,
{
    let na = allies.len() as int;
    let ne = enemies.len() as int;
    let i1 = c1.0 * na + c1.1;
    let i2 = c2.0 * na + c2.1;
    assert(0 <= i1 < ne * na) by (nonlinear_arith)
        requires i1 == c1.0 * na + c1.1, 0 <= c1.0 < ne, 0 <= c1.1 < na;
    assert(0 <= i2 < ne * na) by (nonlinear_arith)
        requires i2 == c2.0 * na + c2.1, 0 <= c2.0 < ne, 0 <= c2.1 < na;
    let d1 = orthogonal(enemies[c1.0 as int].1, allies[c1.1 as int].1);
    let d2 = orthogonal(enemies[c2.0 as int].1, allies[c2.1 as int].1);
    lemma_fundamental_div_mod_converse(rank(allies, enemies, c1), ne * na, d1, i1);
    lemma_fundamental_div_mod_converse(rank(allies, enemies, c2), ne * na, d2, i2);
    lemma_fundamental_div_mod_converse(i1, na, c1.0 as int, c1.1 as int);
    lemma_fundamental_div_mod_converse(i2, na, c2.0 as int, c2.1 as int);
}

fn enemy_in(accepted: &Vec<Candidate>, e: usize) -> (r: bool)
    ensures
        r == enemy_taken(accepted@, e),
{
    let mut k: usize = 0;
    while k < accepted.len()
        invariant
            k <= accepted@.len(),
            forall|j: int| 0 <= j < k ==> #[trigger] accepted@[j].0 != e,
        decreases accepted@.len() - k,
    {
        if accepted[k].0 == e {
            return true;
        }
        k += 1;
    }
    false
}

fn clash_in(accepted: &Vec<Candidate>, c: Candidate) -> (r: bool)
    ensures
        r == clashes(accepted@, c),
{
    let mut k: usize = 0;
    while k < accepted.len()
        invariant
            k <= accepted@.len(),
            forall|j: int| 0 <= j < k ==> (#[trigger] accepted@[j]).0 != c.0 && accepted@[j].1 != c.1,
        decreases accepted@.len() - k,
    {
        if accepted[k].0 == c.0 || accepted[k].1 == c.1 {
            return true;
        }
        k += 1;
    }
    false
}

fn find_stark(allies: &Vec<Entity>) -> (r: Option<usize>)
    ensures
        r matches Some(i) ==> is_stark_index(allies@, i as int),
        r is None ==> forall|i: int| !is_stark_index(allies@, i),
{
    let stark: String = "Stark".to_owned();
    proof {
        reveal_strlit("Stark");
        assert(stark@ =~= stark_name());
    }
    let mut i: usize = 0;
    while i < allies.len()
        invariant
            i <= allies@.len(),
            stark@ == stark_name(),
            forall|j: int| 0 <= j < i ==> #[trigger] allies@[j].0@ != stark_name(),
        decreases allies@.len() - i,
    {
        if allies[i].0 == stark {
            return Some(i);
        }
        i += 1;
    }
    None
}

/// Names the enemy that the ally called "Stark" should face, with its position.
///
/// Every (enemy, ally) pair is a candidate; candidates are taken in order of orthogonal
/// distance, ties going to the earlier enemy and then the earlier ally. A candidate of
/// another ally is accepted as a match when neither its enemy nor its ally is in an
/// accepted match yet. The first candidate of Stark whose enemy is in no accepted match
/// is the answer.
pub fn target_locator(allies: &Vec<Entity>, enemies: &Vec<Entity>) -> (r: Result<(String, i32, i32), LocateError>)
    requires
        enemies@.len() * allies@.len() < usize::MAX,
    ensures
        outcome(r) == located(allies@, enemies@),
{
    let stark = match find_stark(allies) {
        Some(i) => i,
        None => return Err(LocateError::MissingDistinguishedAlly),
    };
    proof {
        let i = choose|i: int| is_stark_index(allies@, i);
        if i < stark {
            assert(allies@[i].0@ != stark_name());
        }
        if stark < i {
            assert(allies@[stark as int].0@ != stark_name());
        }
        assert(i == stark);
    }
    let n_e: usize = enemies.len();
    let n_a: usize = allies.len();
    let total: usize = n_e * n_a;
    let ghost al = allies@;
    let ghost en = enemies@;
    let mut heap: Vec<Node> = Vec::new();
    let ghost mut pool: Set<Candidate> = Set::empty();
    let mut e: usize = 0;
    while e < n_e
        invariant
            n_e == en.len(),
            n_a == al.len(),
            al == allies@,
            en == enemies@,
            total == n_e * n_a,
            total < usize::MAX,
            e <= n_e,
            heap_ordered(heap@),
            heap@.len() == e * n_a,
            pool.finite(),
            forall|c: Candidate| #[trigger] pool.contains(c) <==> c.0 < e && c.1 < n_a,
            pool_matches(al, en, heap@, pool),
        decreases n_e - e,
    {
        let mut a: usize = 0;
        while a < n_a
            invariant
                n_e == en.len(),
                n_a == al.len(),
                al == allies@,
                en == enemies@,
                total == n_e * n_a,
                total < usize::MAX,
                e < n_e,
                a <= n_a,
                heap_ordered(heap@),
                heap@.len() == e * n_a + a,
                pool.finite(),
                forall|c: Candidate| #[trigger] pool.contains(c) <==> (c.0 < e && c.1 < n_a) || (c.0 == e && c.1 < a),
                pool_matches(al, en, heap@, pool),
            decreases n_a - a,
        {
            let d: i64 = wide_distance(enemies[e].1, allies[a].1);
            assert(e * n_a + a < total) by (nonlinear_arith)
                requires e < n_e, a < n_a, total == n_e * n_a;
            assert(0 <= d * total <= 0x4_0000_0000 * 0x1_0000_0000_0000_0000) by (nonlinear_arith)
                requires 0 <= d <= 0x4_0000_0000, total <= 0x1_0000_0000_0000_0000;
            let idx: usize = e * n_a + a;
            let rk: i128 = d as i128 * total as i128 + idx as i128;
            let node = Node { rank: rk, enemy: e, ally: a };
            let ghost c: Candidate = (e, a);
            assert(rk == rank(al, en, c));
            assert(node == node_of(al, en, c));
            assert(!pool.contains(c));
            assert(heap@.to_multiset().count(node) == 0);
            heap.enqueue(node);
            proof {
                pool = pool.insert(c);
                let m = heap@.to_multiset();
                assert forall|x: Candidate| #[trigger] pool.contains(x) implies m.count(node_of(al, en, x)) == 1 by {
                    if x != c {
                        assert(node_of(al, en, x) != node);
                    }
                }
            }
            a += 1;
        }
        assert((e + 1) * n_a == e * n_a + n_a) by (nonlinear_arith);
        e += 1;
    }
    let ghost everything = pool;
    assert(everything =~= all_candidates(en.len(), al.len()));
    let mut accepted: Vec<Candidate> = Vec::new();
    while heap.len() > 0
        invariant
            n_e == en.len(),
            n_a == al.len(),
            al == allies@,
            en == enemies@,
            stark < n_a,
            is_stark_index(al, stark as int),
            heap_ordered(heap@),
            pool.finite(),
            forall|c: Candidate| #[trigger] pool.contains(c) ==> c.0 < n_e && c.1 < n_a,
            pool_matches(al, en, heap@, pool),
            everything == all_candidates(en.len(), al.len()),
            resolve(al, en, stark, pool, accepted@) == resolve(al, en, stark, everything, seq![]),
        decreases heap@.len(),
    {
        let ghost old_heap = heap@;
        let top = heap.dequeue();
        let n = top.unwrap();
        let ghost c: Candidate = (n.enemy, n.ally);
        proof {
            assert(old_heap.contains(n));
            assert(old_heap.to_multiset().count(n) > 0);
            assert(pool.contains(c));
            assert forall|x: Candidate| #[trigger] pool.contains(x) implies rank(al, en, c) <= rank(al, en, x) by {
                let nx = node_of(al, en, x);
                assert(old_heap.to_multiset().count(nx) == 1);
                assert(old_heap.contains(nx));
                let k = choose|k: int| 0 <= k < old_heap.len() && old_heap[k] == nx;
                assert(old_heap[0].key() <= old_heap[k].key());
            }
            assert(is_first(al, en, pool, c));
            let c2 = choose|c2: Candidate| is_first(al, en, pool, c2);
            lemma_rank_injective(al, en, c, c2);
            let m = heap@.to_multiset();
            let rest = pool.remove(c);
            assert forall|x: Candidate| #[trigger] rest.contains(x) implies m.count(node_of(al, en, x)) == 1 by {
                assert(node_of(al, en, x) != n);
            }
            assert forall|y: Node| #[trigger] m.count(y) > 0 implies rest.contains((y.enemy, y.ally))
                && y == node_of(al, en, (y.enemy, y.ally)) by {
                assert(old_heap.to_multiset().count(y) > 0);
                if (y.enemy, y.ally) == c {
                    assert(y == n);
                }
            }
        }
        if n.ally == stark {
            if !enemy_in(&accepted, n.enemy) {
                assert(resolve(al, en, stark, pool, accepted@) == Some(n.enemy));
                let name: String = enemies[n.enemy].0.clone();
                return Ok((name, enemies[n.enemy].1.0, enemies[n.enemy].1.1));
            }
        } else if !clash_in(&accepted, (n.enemy, n.ally)) {
            accepted.push((n.enemy, n.ally));
        }
        proof {
            pool = pool.remove(c);
        }
    }
    proof {
        assert forall|c: Candidate| !#[trigger] pool.contains(c) by {
            if pool.contains(c) {
                assert(heap@.to_multiset().count(node_of(al, en, c)) == 1);
            }
        }
        assert(pool =~= Set::<Candidate>::empty());
        assert(resolve(al, en, stark, pool, accepted@) is None);
    }
    Err(LocateError::ExhaustedCandidates)
}

/// With a single ally, the distinguished one, and a single enemy, that enemy is the answer
/// whatever the distance between them.
pub proof fn lemma_single_pair(allies: Seq<Entity>, enemies: Seq<Entity>)
    requires
        allies.len() == 1,
        enemies.len() == 1,
        allies[0].0@ == stark_name(),
    ensures
        located(allies, enemies) == Ok::<(Seq<char>, i32, i32), LocateError>(
            (enemies[0].0@, enemies[0].1.0, enemies[0].1.1),
        ),
{
    assert(is_stark_index(allies, 0));
    let only: Candidate = (0, 0);
    let s = all_candidates(1, 1);
    assert(s =~= set![only]);
    assert(is_first(allies, enemies, s, only));
    let c = choose|c: Candidate| is_first(allies, enemies, s, c);
    assert(c == only);
    assert(!enemy_taken(seq![], 0));
}

/// Two runs of `target_locator` on the same allies and enemies give the same outcome.
pub proof fn lemma_locator_deterministic(
    allies: Seq<Entity>,
    enemies: Seq<Entity>,
    r1: Result<(String, i32, i32), LocateError>,
    r2: Result<(String, i32, i32), LocateError>,
)
    requires
        outcome(r1) == located(allies, enemies),
        outcome(r2) == located(allies, enemies),
    ensures
        outcome(r1) == outcome(r2),
{
}

/// What `peek` shows is what `dequeue` removes: the front of the queue, which carries a
/// least key.
pub proof fn lemma_peek_is_next<T: Keyed>(q: Vec<T>)
    requires
        q.well_formed(),
        q.items().len() > 0,
    ensures
        forall|i: int| 0 <= i < q.items().len() ==> q.items()[0].key() <= #[trigger] q.items()[i].key(),
{
    lemma_root_is_min(q@);
}

} // verus!
