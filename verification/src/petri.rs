//! A 1-safe Petri net: places are bits of a `u32` marking, transitions
//! consume their input places and fill their output places.

use vstd::prelude::*;

verus! {

broadcast use vstd::seq_lib::group_seq_properties;

/// A transition of a 1-safe Petri net. The input and output places are
/// kept as bitmasks over the net's marking.
pub struct Transition {
    pub name: String,
    pub pre_condition: u32,
    pub post_condition: u32,
}

impl Transition {
    /// Builds a transition from its name and its input and output bitmasks.
    pub fn new(name: &str, pre_condition: u32, post_condition: u32) -> (t: Transition)
        ensures
            t.name@ == name@,
            t.pre_condition == pre_condition,
            t.post_condition == post_condition,
    {
        Transition { name: name.to_owned(), pre_condition, post_condition }
    }
}

/// True iff bit `j` of `m` is set.
pub open spec fn has_bit(m: u32, j: int) -> bool {
    m & (1u32 << (j as u32)) != 0
}

/// A transition may fire iff every one of its input places is marked.
pub open spec fn enabled_in(marking: u32, t: Transition) -> bool {
    marking & t.pre_condition == t.pre_condition
}

/// Firing empties the input places and fills the output places.
pub open spec fn fired_marking(marking: u32, t: Transition) -> u32 {
    (marking & !t.pre_condition) | t.post_condition
}

/// The agreement that `from_matrices` asks of its inputs: at least one
/// transition, equally many rows in both matrices and names, and one column
/// per place in every row.
pub open spec fn valid_matrices(
    pre: Seq<Vec<bool>>,
    post: Seq<Vec<bool>>,
    n_places: int,
    n_names: int,
) -> bool {
    &&& pre.len() > 0
    &&& post.len() == pre.len()
    &&& n_names == pre.len()
    &&& forall|i: int| 0 <= i < pre.len() ==> (#[trigger] pre[i])@.len() == n_places
    &&& forall|i: int| 0 <= i < post.len() ==> (#[trigger] post[i])@.len() == n_places
}

/// Relies on rand::random_range over `0..n`: some index below `n` is drawn;
/// nothing is promised about which one.
#[verifier::external_body]
fn random_below(n: usize) -> (r: usize)
    requires
        n >= 1,
    ensures
        r < n,
{
    rand::random_range(0..n)
}

/// A 1-safe Petri net: a fixed set of places, a list of transitions and a
/// current marking with one bit per place.
pub struct PetriNet {
    pub num_places: usize,
    pub transitions: Vec<Transition>,
    pub marking: u32,
    pub initial_marking: u32,
    pub place_names: Vec<String>,
}

impl Default for PetriNet {
    /// The empty net: no places, no transitions, empty marking.
    fn default() -> (net: PetriNet)
        ensures
            net.num_places == 0,
            net.transitions@.len() == 0,
            net.marking == 0,
            net.initial_marking == 0,
            net.place_names@.len() == 0,
    {
        PetriNet {
            num_places: 0,
            transitions: Vec::new(),
            marking: 0,
            initial_marking: 0,
            place_names: Vec::new(),
        }
    }
}

proof fn lemma_or_bit(a: u32, j: u32, k: u32)
    requires
        j < 32,
        k < 32,
    ensures
        ((a | (1u32 << j)) & (1u32 << k) != 0) == (j == k || a & (1u32 << k) != 0),
{
    assert(((a | (1u32 << j)) & (1u32 << k) != 0) == (j == k || a & (1u32 << k) != 0))
        by (bit_vector)
        requires
            j < 32,
            k < 32,
    ;
}

proof fn lemma_zero_bit(k: u32)
    requires
        k < 32,
    ensures
        0u32 & (1u32 << k) == 0,
{
    assert(0u32 & (1u32 << k) == 0) by (bit_vector);
}

/// The bitmask whose set bits are the true entries of `row`.
fn row_mask(row: &Vec<bool>) -> (m: u32)
    requires
        row@.len() <= 32,
    ensures
        forall|j: int| 0 <= j < row@.len() ==> #[trigger] has_bit(m, j) == row@[j],
{
    let n = row.len();
    let mut mask: u32 = 0;
    proof {
        assert forall|k: int| 0 <= k < 32 implies !has_bit(0u32, k) by {
            lemma_zero_bit(k as u32);
        }
    }
    let mut j: usize = 0;
    while j < n
        invariant
            j <= n,
            n == row@.len(),
            n <= 32,
            forall|jj: int| 0 <= jj < j ==> #[trigger] has_bit(mask, jj) == row@[jj],
            forall|jj: int| j <= jj < 32 ==> !has_bit(mask, jj),
        decreases n - j,
    {
        if row[j] {
            let m2 = mask | (1u32 << (j as u32));
            proof {
                assert forall|k: int| 0 <= k < 32 implies has_bit(m2, k) == (k == j || has_bit(
                    mask,
                    k,
                )) by {
                    lemma_or_bit(mask, j as u32, k as u32);
                    assert((j as u32 == k as u32) <==> (k == j as int));
                }
            }
            mask = m2;
        }
        j += 1;
    }
    mask
}

/// The bitmask whose set bits are the place indices listed in `places`.
fn places_mask(places: &[usize], num_places: usize) -> (m: u32)
    requires
        num_places <= 32,
        forall|k: int| 0 <= k < places@.len() ==> #[trigger] places@[k] < num_places,
    ensures
        forall|j: int| 0 <= j < 32 ==> #[trigger] has_bit(m, j) == places@.contains(j as usize),
{
    let mut mask: u32 = 0;
    proof {
        assert forall|k: int| 0 <= k < 32 implies !has_bit(0u32, k) by {
            lemma_zero_bit(k as u32);
        }
        assert(places@.subrange(0, 0) =~= Seq::<usize>::empty());
    }
    let mut k: usize = 0;
    while k < places.len()
        invariant
            k <= places@.len(),
            num_places <= 32,
            forall|kk: int| 0 <= kk < places@.len() ==> #[trigger] places@[kk] < num_places,
            forall|j: int|
                0 <= j < 32 ==> #[trigger] has_bit(mask, j) == places@.subrange(
                    0,
                    k as int,
                ).contains(j as usize),
        decreases places@.len() - k,
    {
        let place = places[k];
        let m2 = mask | (1u32 << (place as u32));
        proof {
            assert forall|j: int| 0 <= j < 32 implies has_bit(m2, j) == (j == place || has_bit(
                mask,
                j,
            )) by {
                lemma_or_bit(mask, place as u32, j as u32);
                assert((place as u32 == j as u32) <==> (j == place as int));
            }
            assert(places@.subrange(0, k + 1) =~= places@.subrange(0, k as int).push(
                places@[k as int],
            ));
        }
        mask = m2;
        k += 1;
    }
    proof {
        assert(places@.subrange(0, places@.len() as int) =~= places@);
    }
    mask
}

impl PetriNet {
    /// True iff transition `i` exists and is enabled in the current marking.
    pub open spec fn spec_enabled(self, i: int) -> bool {
        0 <= i < self.transitions@.len() && enabled_in(self.marking, self.transitions@[i])
    }

    /// Builds the example net: six places in a chain with one fork, a token
    /// in the first place.
    pub fn new_example() -> (net: PetriNet)
        ensures
            net.num_places == 6,
            net.place_names@.len() == 6,
            net.transitions@.len() == 5,
            net.marking == 1,
            net.initial_marking == 1,
            net.transitions@[0].pre_condition == 1 && net.transitions@[0].post_condition == 6,
            net.transitions@[1].pre_condition == 2 && net.transitions@[1].post_condition == 8,
            net.transitions@[2].pre_condition == 4 && net.transitions@[2].post_condition == 16,
            net.transitions@[3].pre_condition == 8 && net.transitions@[3].post_condition == 32,
            net.transitions@[4].pre_condition == 16 && net.transitions@[4].post_condition == 32,
    {
        let mut place_names: Vec<String> = Vec::new();
        place_names.push(String::from_str("p1"));
        place_names.push(String::from_str("p2"));
        place_names.push(String::from_str("p3"));
        place_names.push(String::from_str("p4"));
        place_names.push(String::from_str("p5"));
        place_names.push(String::from_str("p6"));
        let mut net = PetriNet {
            num_places: 6,
            transitions: Vec::new(),
            marking: 0,
            initial_marking: 0,
            place_names,
        };
        proof {
            assert(1u32 << 0 == 1 && 1u32 << 1 == 2 && 1u32 << 2 == 4 && 1u32 << 3 == 8 && 1u32
                << 4 == 16 && 1u32 << 5 == 32 && ((1u32 << 1) | (1u32 << 2)) == 6) by (bit_vector);
        }
        net.transitions.push(Transition::new("t1", 1u32 << 0, (1u32 << 1) | (1u32 << 2)));
        net.transitions.push(Transition::new("t2", 1u32 << 1, 1u32 << 3));
        net.transitions.push(Transition::new("t3", 1u32 << 2, 1u32 << 4));
        net.transitions.push(Transition::new("t4", 1u32 << 3, 1u32 << 5));
        net.transitions.push(Transition::new("t5", 1u32 << 4, 1u32 << 5));
        net.set_initial_marking(1u32 << 0);
        net
    }

    /// Sets the initial marking and resets the net to it.
    pub fn set_initial_marking(&mut self, marking: u32)
        ensures
            final(self).initial_marking == marking,
            final(self).marking == marking,
            final(self).num_places == old(self).num_places,
            final(self).transitions@ == old(self).transitions@,
            final(self).place_names@ == old(self).place_names@,
    {
        self.initial_marking = marking;
        self.reset();
    }

    /// Brings the net back to its initial marking.
    pub fn reset(&mut self)
        ensures
            final(self).marking == old(self).initial_marking,
            final(self).initial_marking == old(self).initial_marking,
            final(self).num_places == old(self).num_places,
            final(self).transitions@ == old(self).transitions@,
            final(self).place_names@ == old(self).place_names@,
    {
        self.marking = self.initial_marking;
    }

    /// True iff transition `transition_idx` exists and all its input places
    /// are marked.
    pub fn is_transition_enabled(&self, transition_idx: usize) -> (r: bool)
        ensures
            r == self.spec_enabled(transition_idx as int),
    {
        if transition_idx >= self.transitions.len() {
            return false;
        }
        let pre_condition = self.transitions[transition_idx].pre_condition;
        (self.marking & pre_condition) == pre_condition
    }

    /// Fires a transition if it is enabled; reports whether it fired.
    pub fn fire_transition(&mut self, transition_idx: usize) -> (fired: bool)
        ensures
            fired == old(self).spec_enabled(transition_idx as int),
            fired ==> final(self).marking == fired_marking(
                old(self).marking,
                old(self).transitions@[transition_idx as int],
            ),
            !fired ==> final(self).marking == old(self).marking,
            final(self).num_places == old(self).num_places,
            final(self).transitions@ == old(self).transitions@,
            final(self).initial_marking == old(self).initial_marking,
            final(self).place_names@ == old(self).place_names@,
    {
        if !self.is_transition_enabled(transition_idx) {
            return false;
        }
        let pre_condition = self.transitions[transition_idx].pre_condition;
        let post_condition = self.transitions[transition_idx].post_condition;
        self.marking = self.marking & !pre_condition;
        self.marking = self.marking | post_condition;
        true
    }

    /// The indices of the transitions enabled in the current marking, in
    /// ascending order.
    pub fn get_enabled_transitions(&self) -> (r: Vec<usize>)
        ensures
            forall|k: int| 0 <= k < r@.len() ==> self.spec_enabled(r@[k] as int),
            forall|i: int|
                0 <= i < self.transitions@.len() && self.spec_enabled(i) ==> r@.contains(
                    i as usize,
                ),
            forall|k1: int, k2: int| 0 <= k1 < k2 < r@.len() ==> r@[k1] < r@[k2],
    {
        let mut r: Vec<usize> = Vec::new();
        let n = self.transitions.len();
        let mut i: usize = 0;
        while i < n
            invariant
                i <= n,
                n == self.transitions@.len(),
                forall|k: int| 0 <= k < r@.len() ==> r@[k] < i && self.spec_enabled(r@[k] as int),
                forall|j: int| 0 <= j < i && self.spec_enabled(j) ==> r@.contains(j as usize),
                forall|k1: int, k2: int| 0 <= k1 < k2 < r@.len() ==> r@[k1] < r@[k2],
            decreases n - i,
        {
            let ghost r_before = r@;
            if self.is_transition_enabled(i) {
                r.push(i);
            }
            proof {
                assert forall|j: int| 0 <= j < i + 1 && self.spec_enabled(j) implies r@.contains(
                    j as usize,
                ) by {
                    if j < i {
                        assert(r_before.contains(j as usize));
                        let k = choose|k: int|
                            0 <= k < r_before.len() && r_before[k] == j as usize;
                        assert(r@[k] == j as usize);
                    } else {
                        assert(r@[r@.len() - 1] == i as usize);
                    }
                }
            }
            i += 1;
        }
        r
    }

    /// Builds a net from boolean pre- and post-condition matrices: one row
    /// per transition, one column per place. Rejects matrices whose sizes do
    /// not agree.
    pub fn from_matrices(
        pre_matrix: &[Vec<bool>],
        post_matrix: &[Vec<bool>],
        place_names: Vec<String>,
        transition_names: Vec<String>,
    ) -> (result: Result<Self, String>)
        requires
            place_names@.len() <= 32,
        ensures
            result is Ok <==> valid_matrices(
                pre_matrix@,
                post_matrix@,
                place_names@.len() as int,
                transition_names@.len() as int,
            ),
            result matches Ok(net) ==> {
                &&& net.num_places == place_names@.len()
                &&& net.place_names@ == place_names@
                &&& net.marking == 0
                &&& net.initial_marking == 0
                &&& net.transitions@.len() == pre_matrix@.len()
                &&& forall|i: int, j: int|
                    0 <= i < pre_matrix@.len() && 0 <= j < place_names@.len()
                        ==> #[trigger] has_bit(net.transitions@[i].pre_condition, j)
                        == pre_matrix@[i]@[j]
                &&& forall|i: int, j: int|
                    0 <= i < pre_matrix@.len() && 0 <= j < place_names@.len()
                        ==> #[trigger] has_bit(net.transitions@[i].post_condition, j)
                        == post_matrix@[i]@[j]
                &&& forall|i: int|
                    0 <= i < pre_matrix@.len() ==> (#[trigger] net.transitions@[i].name)@
                        == transition_names@[i]@
            },
    {
        if pre_matrix.len() == 0 || post_matrix.len() == 0 {
            return Err(String::from_str("matrices must not be empty"));
        }
        let num_transitions = pre_matrix.len();
        if post_matrix.len() != num_transitions {
            return Err(String::from_str("matrices must have the same number of rows"));
        }
        if transition_names.len() != num_transitions {
            return Err(
                String::from_str("transition names must match the number of matrix rows"),
            );
        }
        let num_places = place_names.len();
        let mut i: usize = 0;
        while i < num_transitions
            invariant
                i <= num_transitions,
                num_transitions == pre_matrix@.len(),
                num_transitions == post_matrix@.len(),
                num_places == place_names@.len(),
                forall|ii: int| 0 <= ii < i ==> (#[trigger] pre_matrix@[ii])@.len()
                    == num_places,
                forall|ii: int| 0 <= ii < i ==> (#[trigger] post_matrix@[ii])@.len()
                    == num_places,
            decreases num_transitions - i,
        {
            if pre_matrix[i].len() != num_places {
                return Err(String::from_str("all matrix rows must have one entry per place"));
            }
            if post_matrix[i].len() != num_places {
                return Err(String::from_str("all matrix rows must have one entry per place"));
            }
            i += 1;
        }
        let mut transitions: Vec<Transition> = Vec::new();
        let mut i: usize = 0;
        while i < num_transitions
            invariant
                i <= num_transitions,
                num_transitions == pre_matrix@.len(),
                num_transitions == post_matrix@.len(),
                num_transitions == transition_names@.len(),
                num_places == place_names@.len(),
                num_places <= 32,
                forall|ii: int|
                    0 <= ii < num_transitions ==> (#[trigger] pre_matrix@[ii])@.len()
                        == num_places,
                forall|ii: int|
                    0 <= ii < num_transitions ==> (#[trigger] post_matrix@[ii])@.len()
                        == num_places,
                transitions@.len() == i,
                forall|ii: int, j: int|
                    0 <= ii < i && 0 <= j < num_places ==> #[trigger] has_bit(
                        transitions@[ii].pre_condition,
                        j,
                    ) == pre_matrix@[ii]@[j],
                forall|ii: int, j: int|
                    0 <= ii < i && 0 <= j < num_places ==> #[trigger] has_bit(
                        transitions@[ii].post_condition,
                        j,
                    ) == post_matrix@[ii]@[j],
                forall|ii: int|
                    0 <= ii < i ==> (#[trigger] transitions@[ii].name)@ == transition_names@[ii]@,
            decreases num_transitions - i,
        {
            proof {
                assert(pre_matrix@[i as int]@.len() == num_places);
                assert(post_matrix@[i as int]@.len() == num_places);
            }
            let pre_condition = row_mask(&pre_matrix[i]);
            let post_condition = row_mask(&post_matrix[i]);
            let t = Transition::new(transition_names[i].as_str(), pre_condition, post_condition);
            let ghost tg = t;
            let ghost before = transitions@;
            transitions.push(t);
            proof {
                assert(transitions@ == before.push(tg));
                assert forall|ii: int, j: int|
                    0 <= ii < i + 1 && 0 <= j < num_places implies #[trigger] has_bit(
                    transitions@[ii].pre_condition,
                    j,
                ) == pre_matrix@[ii]@[j] by {
                    if ii < i {
                        assert(transitions@[ii] == before[ii]);
                        assert(has_bit(before[ii].pre_condition, j) == pre_matrix@[ii]@[j]);
                    } else {
                        assert(transitions@[ii] == tg);
                        assert(has_bit(pre_condition, j) == pre_matrix@[ii]@[j]);
                    }
                }
                assert forall|ii: int, j: int|
                    0 <= ii < i + 1 && 0 <= j < num_places implies #[trigger] has_bit(
                    transitions@[ii].post_condition,
                    j,
                ) == post_matrix@[ii]@[j] by {
                    if ii < i {
                        assert(transitions@[ii] == before[ii]);
                        assert(has_bit(before[ii].post_condition, j) == post_matrix@[ii]@[j]);
                    } else {
                        assert(transitions@[ii] == tg);
                        assert(has_bit(post_condition, j) == post_matrix@[ii]@[j]);
                    }
                }
                assert forall|ii: int| 0 <= ii < i + 1 implies (#[trigger] transitions@[ii].name)@
                    == transition_names@[ii]@ by {
                    if ii < i {
                        assert(transitions@[ii] == before[ii]);
                        assert(before[ii].name@ == transition_names@[ii]@);
                    } else {
                        assert(transitions@[ii] == tg);
                    }
                }
            }
            i += 1;
        }
        Ok(
            PetriNet {
                num_places,
                transitions,
                marking: 0,
                initial_marking: 0,
                place_names,
            },
        )
    }

    /// Appends a transition given the indices of its input and output
    /// places. Rejects any index that names no place.
    pub fn add_transition(
        &mut self,
        name: &str,
        input_places: &[usize],
        output_places: &[usize],
    ) -> (result: Result<(), String>)
        requires
            old(self).num_places <= 32,
        ensures
            result is Ok <==> (forall|k: int|
                0 <= k < input_places@.len() ==> #[trigger] input_places@[k] < old(
                    self,
                ).num_places) && (forall|k: int|
                0 <= k < output_places@.len() ==> #[trigger] output_places@[k] < old(
                    self,
                ).num_places),
            result is Ok ==> {
                &&& final(self).transitions@.len() == old(self).transitions@.len() + 1
                &&& final(self).transitions@.subrange(
                    0,
                    old(self).transitions@.len() as int,
                ) == old(self).transitions@
                &&& {
                    let t = final(self).transitions@.last();
                    &&& t.name@ == name@
                    &&& forall|j: int|
                        0 <= j < 32 ==> #[trigger] has_bit(t.pre_condition, j) == input_places@.contains(
                            j as usize,
                        )
                    &&& forall|j: int|
                        0 <= j < 32 ==> #[trigger] has_bit(t.post_condition, j)
                            == output_places@.contains(j as usize)
                }
            },
            result is Err ==> final(self).transitions@ == old(self).transitions@,
            final(self).num_places == old(self).num_places,
            final(self).marking == old(self).marking,
            final(self).initial_marking == old(self).initial_marking,
            final(self).place_names@ == old(self).place_names@,
    {
        let mut k: usize = 0;
        while k < input_places.len()
            invariant
                k <= input_places@.len(),
                forall|kk: int|
                    0 <= kk < k ==> #[trigger] input_places@[kk] < self.num_places,
                self == old(self),
            decreases input_places@.len() - k,
        {
            if input_places[k] >= self.num_places {
                return Err(String::from_str("place index out of range"));
            }
            k += 1;
        }
        let mut k: usize = 0;
        while k < output_places.len()
            invariant
                k <= output_places@.len(),
                forall|kk: int|
                    0 <= kk < k ==> #[trigger] output_places@[kk] < self.num_places,
                self == old(self),
            decreases output_places@.len() - k,
        {
            if output_places[k] >= self.num_places {
                return Err(String::from_str("place index out of range"));
            }
            k += 1;
        }
        let pre_condition = places_mask(input_places, self.num_places);
        let post_condition = places_mask(output_places, self.num_places);
        let ghost before = self.transitions@;
        self.transitions.push(Transition::new(name, pre_condition, post_condition));
        proof {
            assert(self.transitions@.subrange(0, before.len() as int) =~= before);
        }
        Ok(())
    }

    /// Runs the net for at most `steps` steps, firing one randomly chosen
    /// enabled transition per step; stops early when nothing is enabled.
    /// Returns the history: the marking before the first step, then each
    /// fired transition with the marking it produced.
    pub fn simulate(&mut self, steps: usize) -> (history: Vec<(u32, Option<usize>)>)
        ensures
            final(self).num_places == old(self).num_places,
            final(self).transitions@ == old(self).transitions@,
            final(self).initial_marking == old(self).initial_marking,
            final(self).place_names@ == old(self).place_names@,
            1 <= history@.len() <= steps + 1,
            history@[0] == (old(self).marking, None::<usize>),
            final(self).marking == history@.last().0,
            history@.len() <= steps ==> (forall|t: int| !final(self).spec_enabled(t)),
            forall|k: int|
                1 <= k < history@.len() ==> ((#[trigger] history@[k]).1 matches Some(t) && t
                    < old(self).transitions@.len() && enabled_in(
                    history@[k - 1].0,
                    old(self).transitions@[t as int],
                ) && history@[k].0 == fired_marking(
                    history@[k - 1].0,
                    old(self).transitions@[t as int],
                )),
    {
        let mut history: Vec<(u32, Option<usize>)> = Vec::new();
        history.push((self.marking, None));
        let mut step: usize = 0;
        let mut stalled = false;
        while step < steps && !stalled
            invariant
                step <= steps,
                self.num_places == old(self).num_places,
                self.transitions@ == old(self).transitions@,
                self.initial_marking == old(self).initial_marking,
                self.place_names@ == old(self).place_names@,
                history@.len() == step + 1,
                history@[0] == (old(self).marking, None::<usize>),
                self.marking == history@.last().0,
                stalled ==> (forall|t: int| !self.spec_enabled(t)),
                forall|k: int|
                    1 <= k < history@.len() ==> ((#[trigger] history@[k]).1 matches Some(t) && t
                        < old(self).transitions@.len() && enabled_in(
                        history@[k - 1].0,
                        old(self).transitions@[t as int],
                    ) && history@[k].0 == fired_marking(
                        history@[k - 1].0,
                        old(self).transitions@[t as int],
                    )),
            decreases steps - step, (if stalled { 0int } else { 1int }),
        {
            let enabled = self.get_enabled_transitions();
            if enabled.len() == 0 {
                stalled = true;
                proof {
                    assert forall|t: int| !self.spec_enabled(t) by {
                        if self.spec_enabled(t) {
                            assert(enabled@.contains(t as usize));
                        }
                    }
                }
            } else {
                let pick = random_below(enabled.len());
                let selected = enabled[pick];
                self.fire_transition(selected);
                history.push((self.marking, Some(selected)));
                step += 1;
            }
        }
        history
    }

    /// The current marking.
    pub fn get_marking(&self) -> (r: u32)
        ensures
            r == self.marking,
    {
        self.marking
    }

    /// The number of places.
    pub fn num_places(&self) -> (r: usize)
        ensures
            r == self.num_places,
    {
        self.num_places
    }

    /// The number of transitions.
    pub fn num_transitions(&self) -> (r: usize)
        ensures
            r == self.transitions@.len(),
    {
        self.transitions.len()
    }
}

/// Renders parts of a net's state as text, for callers that print it.
pub trait PetriNetDisplay {
    /// One line naming the marked places.
    fn format_marking(&self) -> String;

    /// One line naming the transitions enabled in the current marking.
    fn format_enabled_transitions(&self) -> String;
}

impl PetriNetDisplay for PetriNet {
    fn format_marking(&self) -> String {
        let mut line = String::from_str("marked places:");
        let mut any = false;
        let mut i: usize = 0;
        while i < self.num_places && i < 32 && i < self.place_names.len()
            invariant
                i <= 32,
            decreases 32 - i,
        {
            if self.marking & (1u32 << (i as u32)) != 0 {
                line.append(" ");
                line.append(self.place_names[i].as_str());
                any = true;
            }
            i += 1;
        }
        if !any {
            line.append(" (none)");
        }
        line
    }

    fn format_enabled_transitions(&self) -> String {
        let mut line = String::from_str("enabled transitions:");
        let enabled = self.get_enabled_transitions();
        let mut k: usize = 0;
        while k < enabled.len()
            invariant
                k <= enabled@.len(),
                forall|kk: int| 0 <= kk < enabled@.len() ==> self.spec_enabled(
                    #[trigger] enabled@[kk] as int,
                ),
            decreases enabled@.len() - k,
        {
            line.append(" ");
            line.append(self.transitions[enabled[k]].name.as_str());
            k += 1;
        }
        if enabled.len() == 0 {
            line.append(" (none)");
        }
        line
    }
}

/// How a simulation picks among the enabled transitions.
pub enum SimulationStrategy {
    /// Picks at random among the enabled transitions.
    Random,
    /// Picks the first enabled transition.
    FirstEnabled,
    /// Fires every enabled transition in one step.
    Parallel,
}

} // verus!
