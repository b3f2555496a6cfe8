use vstd::prelude::*;

verus! {

use crate::meta::Source;

impl View for Source {
    type V = Option<Seq<char>>;

    open(crate) spec fn view(&self) -> Option<Seq<char>> {
        match self.id {
            Some(ref id) => Some(id@),
            None => None,
        }
    }
}

impl Source {
    /// An unset source, for a snapshot never yet persisted.
    pub fn new() -> (r: Source)
        ensures
            r@ is None,
    {
        Source { id: None }
    }

    /// The commit this snapshot was loaded from, if any.
    pub fn id(&self) -> (r: Option<String>)
        ensures
            match r {
                Some(id) => self@ == Some(id@),
                None => self@ is None,
            },
    {
        match &self.id {
            Some(id) => Some(id.clone()),
            None => None,
        }
    }

    /// Records the commit the snapshot now corresponds to.
    pub fn set_id(&mut self, id: String)
        ensures
            final(self)@ == Some(id@),
    {
        self.id = Some(id);
    }
}

} // verus!
