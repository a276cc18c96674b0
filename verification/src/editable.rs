//! Options of the editors of values.
use vstd::prelude::*;

verus! {

#[derive(Clone, Copy, Debug)]
pub struct EditorOpts<T> {
    pub range: Option<(T, T)>,
}

impl<T> EditorOpts<T> {
    /// The same options over values mapped by `f`: each end of the range is
    /// mapped.
    pub fn map_range<F, U>(self, f: F) -> (r: EditorOpts<U>)
        where F: Fn(T) -> U,
        requires
            self.range matches Some((min, max)) ==> f.requires((min,)) && f.requires((max,)),
        ensures
            self.range is None ==> r.range is None,
            self.range matches Some((min, max)) ==> r.range matches Some((a, b)) && f.ensures((min,), a) && f.ensures((max,), b),
    {
        match self.range {
            Some((min, max)) => EditorOpts { range: Some((f(min), f(max))) },
            None => EditorOpts { range: None },
        }
    }
}

impl<T> Default for EditorOpts<T> {
    fn default() -> (o: Self)
        ensures
            o.range is None,
    {
        EditorOpts { range: None }
    }
}

} // verus!
