use vstd::prelude::*;

verus! {

/// A simulation state kept in two buffers of equal length: at an even step
/// count the first is current and the second is written next, at an odd one
/// the roles swap.
pub struct Universe<P> {
    time: usize,
    bodies: (Vec<P>, Vec<P>),
}

impl<P: Copy> Universe<P> {
    /// Both buffers have the same length.
    pub closed spec fn wf(self) -> bool {
        self.bodies.0.len() == self.bodies.1.len()
    }

    /// Number of steps taken.
    pub closed spec fn steps(self) -> nat {
        self.time as nat
    }

    /// Number of particles.
    pub closed spec fn size(self) -> nat {
        self.bodies.0.len() as nat
    }

    /// The authoritative buffer.
    pub closed spec fn current_buffer(self) -> Vec<P> {
        if self.time % 2 == 0 {
            self.bodies.0
        } else {
            self.bodies.1
        }
    }

    /// The authoritative particles.
    pub open spec fn state(self) -> Seq<P> {
        self.current_buffer()@
    }

    /// `after` is one step on from `self`, whatever each particle became.
    pub open spec fn stepped(self, after: Universe<P>) -> bool {
        &&& after.wf()
        &&& after.size() == self.size()
        &&& after.steps() == self.steps() + 1
        &&& after.state().len() == self.state().len()
    }

    /// A state of the given particles, both buffers alike, at step zero.
    pub fn new(initial: Vec<P>) -> (r: Self)
        ensures
            r.wf(),
            r.steps() == 0,
            r.size() == initial.len(),
            r.state() == initial@,
    {
        let mut copy: Vec<P> = Vec::new();
        let mut i: usize = 0;
        while i < initial.len()
            invariant
                0 <= i <= initial.len(),
                copy@ == initial@.take(i as int),
            decreases initial.len() - i,
        {
            assert(initial@.take(i + 1) == initial@.take(i as int).push(initial@[i as int]));
            copy.push(initial[i]);
            i += 1;
        }
        assert(initial@.take(i as int) == initial@);
        Universe { time: 0, bodies: (initial, copy) }
    }

    /// Number of steps taken.
    pub fn time(&self) -> (r: usize)
        ensures
            r == self.steps(),
    {
        self.time
    }

    /// The authoritative particles.
    pub fn current(&self) -> (r: &Vec<P>)
        ensures
            r@ == self.state(),
            *r == self.current_buffer(),
    {
        if self.time % 2 == 0 {
            &self.bodies.0
        } else {
            &self.bodies.1
        }
    }

    /// Advances one step: particle `i` of the other buffer becomes
    /// `update(&current[i], &current)`, then that buffer becomes current.
    pub fn next_state_seq<F: Fn(&P, &Vec<P>) -> P>(&mut self, update: F)
        requires
            old(self).wf(),
            old(self).steps() < usize::MAX,
            forall|p: &P, all: &Vec<P>| #[trigger] update.requires((p, all)),
        ensures
            old(self).stepped(*final(self)),
            forall|i: int|
                0 <= i < old(self).size() ==> update.ensures(
                    (&old(self).current_buffer()[i], &old(self).current_buffer()),
                    #[trigger] final(self).state()[i],
                ),
    {
        if self.time % 2 == 0 {
            advance(&self.bodies.0, &mut self.bodies.1, &update);
        } else {
            advance(&self.bodies.1, &mut self.bodies.0, &update);
        }
        self.time = self.time + 1;
    }

    /// Advances one step to particles computed elsewhere from `current()`:
    /// they are written into the other buffer, which becomes current.
    pub fn next_state_from(&mut self, next: &Vec<P>)
        requires
            old(self).wf(),
            old(self).steps() < usize::MAX,
            next.len() == old(self).size(),
        ensures
            old(self).stepped(*final(self)),
            final(self).state() == next@,
    {
        if self.time % 2 == 0 {
            overwrite(next, &mut self.bodies.1);
        } else {
            overwrite(next, &mut self.bodies.0);
        }
        self.time = self.time + 1;
    }
}

fn advance<P: Copy, F: Fn(&P, &Vec<P>) -> P>(input: &Vec<P>, out: &mut Vec<P>, update: &F)
    requires
        old(out).len() == input.len(),
        forall|p: &P, all: &Vec<P>| #[trigger] update.requires((p, all)),
    ensures
        final(out).len() == input.len(),
        forall|i: int|
            0 <= i < input.len() ==> update.ensures((&input[i], input), #[trigger] final(out)@[i]),
{
    let mut i: usize = 0;
    while i < input.len()
        invariant
            0 <= i <= input.len(),
            out.len() == input.len(),
            forall|p: &P, all: &Vec<P>| #[trigger] update.requires((p, all)),
            forall|j: int| 0 <= j < i ==> update.ensures((&input[j], input), #[trigger] out@[j]),
        decreases input.len() - i,
    {
        let p = update(&input[i], input);
        out.set(i, p);
        i += 1;
    }
}

fn overwrite<P: Copy>(src: &Vec<P>, out: &mut Vec<P>)
    requires
        old(out).len() == src.len(),
    ensures
        final(out)@ == src@,
{
    let mut i: usize = 0;
    while i < src.len()
        invariant
            0 <= i <= src.len(),
            out.len() == src.len(),
            forall|j: int| 0 <= j < i ==> out@[j] == src@[j],
        decreases src.len() - i,
    {
        out.set(i, src[i]);
        i += 1;
    }
    assert(out@ =~= src@);
}

/// The particle count never changes: after any number of steps it is the
/// count the state was created with.
pub proof fn lemma_size_kept<P: Copy>(states: Seq<Universe<P>>)
    requires
        states.len() > 0,
        states[0].wf(),
        forall|k: int| 0 <= k < states.len() - 1 ==> #[trigger] states[k].stepped(states[k + 1]),
    ensures
        forall|k: int|
            0 <= k < states.len() ==> (#[trigger] states[k]).size() == states[0].size()
                && states[k].state().len() == states[0].state().len(),
{
    assert forall|k: int| 0 <= k < states.len() implies (#[trigger] states[k]).size()
        == states[0].size() && states[k].state().len() == states[0].state().len() by {
        lemma_size_prefix(states, k);
    }
}

proof fn lemma_size_prefix<P: Copy>(states: Seq<Universe<P>>, k: int)
    requires
        states.len() > 0,
        forall|k: int| 0 <= k < states.len() - 1 ==> #[trigger] states[k].stepped(states[k + 1]),
        0 <= k < states.len(),
    ensures
        states[k].size() == states[0].size(),
        states[k].state().len() == states[0].state().len(),
    decreases k,
{
    if k > 0 {
        lemma_size_prefix(states, k - 1);
        assert(states[k - 1].stepped(states[(k - 1) + 1]));
    }
}

} // verus!
