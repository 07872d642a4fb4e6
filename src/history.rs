use vstd::prelude::*;

verus! {

/// The entered inputs, and a cursor for stepping through them with the arrow keys.
pub struct InputHistory {
    inputs: Vec<String>,
    index: usize,
}

impl View for InputHistory {
    type V = (Seq<Seq<char>>, nat);

    closed spec fn view(&self) -> (Seq<Seq<char>>, nat) {
        (self.inputs@.map_values(|s: String| s@), self.index as nat)
    }
}

impl InputHistory {
    /// The cursor is at most one past the last input.
    pub closed spec fn wf(&self) -> bool {
        self.index <= self.inputs.len()
    }

    pub fn new() -> (r: InputHistory)
        ensures
            r.wf(),
            r@.0 == Seq::<Seq<char>>::empty(),
            r@.1 == 0,
    {
        let r = InputHistory { inputs: Vec::new(), index: 0 };
        assert(r@.0 =~= Seq::<Seq<char>>::empty());
        r
    }

    /// Records a non-empty input and puts the cursor past it; an empty one changes nothing.
    pub fn add_input(&mut self, input: String)
        requires
            old(self).wf(),
        ensures
            final(self).wf(),
            input@.len() == 0 ==> final(self)@ == old(self)@,
            input@.len() > 0 ==> final(self)@ == (old(self)@.0.push(input@), old(self)@.0.len() + 1),
    {
        if input.unicode_len() > 0 {
            let ghost before = self@.0;
            self.inputs.push(input);
            self.index = self.inputs.len();
            assert(self@.0 =~= before.push(input@));
        }
    }

    /// Steps back: the previous input, or `None` at the first.
    pub fn arrow_up(&mut self) -> (r: Option<String>)
        requires
            old(self).wf(),
        ensures
            final(self).wf(),
            final(self)@.0 == old(self)@.0,
            old(self)@.1 == 0 ==> r is None && final(self)@.1 == 0,
            old(self)@.1 > 0 ==> final(self)@.1 == old(self)@.1 - 1
                && (r matches Some(s) && s@ == old(self)@.0[old(self)@.1 as int - 1]),
    {
        if self.index > 0 {
            self.index -= 1;
            Some(self.inputs[self.index].clone())
        } else {
            None
        }
    }

    /// Steps forward: the next input, an empty text past the last, or `None` when already
    /// past it.
    pub fn arrow_down(&mut self) -> (r: Option<String>)
        requires
            old(self).wf(),
        ensures
            final(self).wf(),
            final(self)@.0 == old(self)@.0,
            old(self)@.1 == old(self)@.0.len() ==> r is None && final(self)@.1 == old(self)@.1,
            old(self)@.1 < old(self)@.0.len() ==> final(self)@.1 == old(self)@.1 + 1,
            old(self)@.1 + 1 < old(self)@.0.len() ==> (r matches Some(s) && s@ == old(self)@.0[old(self)@.1 as int + 1]),
            old(self)@.1 + 1 == old(self)@.0.len() ==> (r matches Some(s) && s@.len() == 0),
    {
        if self.index < self.inputs.len() {
            self.index += 1;
            if self.index < self.inputs.len() {
                Some(self.inputs[self.index].clone())
            } else {
                Some(String::new())
            }
        } else {
            None
        }
    }
}

} // verus!
