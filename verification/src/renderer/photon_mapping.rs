//! The light of a path: one ray for all wavelengths, or one ray per wavelength once the
//! path was dispersed.
use vstd::prelude::*;

verus! {

/// A value for light that travels together, or one per wavelength.
#[derive(Debug, Clone, PartialEq)]
pub enum LightMode<C, D> {
    Coherent(C),
    Dispersed(D),
}

/// The values that are present, in order.
pub open spec fn somes<T>(s: Seq<Option<T>>) -> Seq<T>
    decreases s.len(),
{
    if s.len() == 0 {
        Seq::empty()
    } else {
        let init = somes(s.drop_last());
        match s.last() {
            Some(v) => init.push(v),
            None => init,
        }
    }
}

impl<C, D> LightMode<Option<C>, Vec<Option<D>>> {
    /// Every value is present.
    pub open spec fn all_present(&self) -> bool {
        match *self {
            LightMode::Coherent(option) => option is Some,
            LightMode::Dispersed(options) => forall|i: int| 0 <= i < options@.len() ==> #[trigger] options@[i] is Some,
        }
    }

    /// Whether every value is present.
    pub fn is_some(&self) -> (r: bool)
        ensures
            r == self.all_present(),
    {
        match self {
            LightMode::Coherent(option) => option.is_some(),
            LightMode::Dispersed(options) => {
                let mut i: usize = 0;
                while i < options.len()
                    invariant
                        0 <= i <= options@.len(),
                        forall|j: int| 0 <= j < i ==> #[trigger] options@[j] is Some,
                        self.all_present() == (forall|j: int| 0 <= j < options@.len() ==> #[trigger] options@[j] is Some),
                    decreases options@.len() - i,
                {
                    if options[i].is_none() {
                        proof {
                            assert(!(options@[i as int] is Some));
                            assert(!(forall|j: int| 0 <= j < options@.len() ==> #[trigger] options@[j] is Some));
                        }
                        return false;
                    }
                    i = i + 1;
                }
                true
            },
        }
    }
}

impl<T> LightMode<Option<T>, Vec<Option<T>>> {
    /// The values that are present, in order.
    pub fn iter(&self) -> (r: Vec<&T>)
        ensures
            r@.map_values(|v: &T| *v) == match self {
                LightMode::Coherent(Some(v)) => seq![*v],
                LightMode::Coherent(None) => Seq::empty(),
                LightMode::Dispersed(options) => somes(options@),
            },
    {
        let mut out: Vec<&T> = Vec::new();
        match self {
            LightMode::Coherent(option) => {
                if let Some(v) = option {
                    out.push(v);
                }
                proof {
                    assert(out@.map_values(|v: &T| *v) =~= match self {
                        LightMode::Coherent(Some(v)) => seq![*v],
                        LightMode::Coherent(None) => Seq::empty(),
                        LightMode::Dispersed(options) => somes(options@),
                    });
                }
                out
            },
            LightMode::Dispersed(options) => {
                let mut i: usize = 0;
                proof {
                    assert(options@.subrange(0, 0) =~= Seq::<Option<T>>::empty());
                    assert(out@.map_values(|v: &T| *v) =~= Seq::<T>::empty());
                }
                while i < options.len()
                    invariant
                        0 <= i <= options@.len(),
                        out@.map_values(|v: &T| *v) == somes(options@.subrange(0, i as int)),
                        *self == LightMode::<Option<T>, Vec<Option<T>>>::Dispersed(*options),
                    decreases options@.len() - i,
                {
                    let ghost before = out@;
                    proof {
                        assert(options@.subrange(0, i + 1).drop_last() =~= options@.subrange(0, i as int));
                    }
                    if let Some(v) = &options[i] {
                        out.push(v);
                        proof {
                            assert(out@.map_values(|v: &T| *v) =~= before.map_values(|v: &T| *v).push(*v));
                        }
                    }
                    i = i + 1;
                }
                proof {
                    assert(options@.subrange(0, options@.len() as int) =~= options@);
                }
                out
            },
        }
    }
}

} // verus!
