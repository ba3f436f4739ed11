//! The chat prompts the pipeline runs, keyed by their names.

use vstd::prelude::*;

use crate::scoring::Region;

verus! {

/// One chat prompt: its template text and the region the resulting
/// translation targets.
pub struct Prompt {
    pub text: String,
    pub region: Region,
}

/// The region a prompt targets when its file entry names none.
pub fn default_region() -> (r: Region)
    ensures
        r == Region::America,
{
    Region::America
}

/// A named set of chat prompts, in a fixed order that the report columns
/// follow. Prompt names are unique. Reading and decoding the prompts
/// file is the embedding program's part; it hands the decoded entries
/// here.
pub struct ChatgptPrompts {
    entries: Vec<(String, Prompt)>,
}

impl View for ChatgptPrompts {
    type V = Seq<(Seq<char>, Seq<char>, Region)>;

    closed spec fn view(&self) -> Seq<(Seq<char>, Seq<char>, Region)> {
        Seq::new(
            self.entries@.len(),
            |i: int|
                (self.entries@[i].0@, self.entries@[i].1.text@, self.entries@[i].1.region),
        )
    }
}

impl ChatgptPrompts {
    /// Prompt names, in column order.
    pub open spec fn names(self) -> Seq<Seq<char>> {
        Seq::new(self@.len(), |i: int| self@[i].0)
    }

    /// No two prompts share a name.
    pub open spec fn wf(self) -> bool {
        forall|i: int, j: int| 0 <= i < j < self@.len() ==> self@[i].0 != self@[j].0
    }

    /// Accepts decoded prompt entries; entries with a repeated name are
    /// rejected, which a well-formed prompts file never produces.
    pub fn from_entries(entries: Vec<(String, Prompt)>) -> (r: Option<ChatgptPrompts>)
        ensures
            r is Some <==> (forall|i: int, j: int|
                0 <= i < j < entries@.len() ==> (#[trigger] entries@[i]).0@ != (
                #[trigger] entries@[j]).0@),
            r matches Some(p) ==> {
                &&& p.wf()
                &&& p@.len() == entries@.len()
                &&& (forall|i: int| 0 <= i < entries@.len() ==> (#[trigger] p@[i]) == ((
                entries@[i].0@,
                entries@[i].1.text@,
                entries@[i].1.region,
                )))
            },
    {
        let mut i: usize = 0;
        while i < entries.len()
            invariant
                i <= entries@.len(),
                forall|a: int, b: int|
                    0 <= a < b < i ==> (#[trigger] entries@[a]).0@ != (#[trigger] entries@[b]).0@,
            decreases entries@.len() - i,
        {
            let mut j: usize = 0;
            while j < i
                invariant
                    j <= i < entries@.len(),
                    forall|b: int| 0 <= b < j ==> (#[trigger] entries@[b]).0@ != entries@[i as int].0@,
                decreases i - j,
            {
                if entries[j].0 == entries[i].0 {
                    return None;
                }
                j += 1;
            }
            i += 1;
        }
        let prompts = ChatgptPrompts { entries };
        proof {
            assert forall|i2: int, j2: int| 0 <= i2 < j2 < prompts@.len() implies prompts@[i2].0
                != prompts@[j2].0 by {
                assert(prompts@[i2].0 == prompts.entries@[i2].0@);
                assert(prompts@[j2].0 == prompts.entries@[j2].0@);
            }
        }
        Some(prompts)
    }

    /// How many prompts there are.
    pub fn len(&self) -> (r: usize)
        ensures
            r == self@.len(),
    {
        self.entries.len()
    }

    /// The name of the prompt at a position.
    pub fn name_at(&self, i: usize) -> (r: &String)
        requires
            i < self@.len(),
        ensures
            r@ == self@[i as int].0,
    {
        &self.entries[i].0
    }

    /// The prompt at a position.
    pub fn prompt_at(&self, i: usize) -> (r: &Prompt)
        requires
            i < self@.len(),
        ensures
            r.text@ == self@[i as int].1,
            r.region == self@[i as int].2,
    {
        &self.entries[i].1
    }
}

} // verus!
