//! The parts of a project description that refer to each other by number, and the
//! stores that hand those numbers out.
use vstd::prelude::*;

use std::collections::HashMap;

use crate::config::Error;
use crate::texture::Texture;
use self::expressions::Expression;

pub mod expressions;
pub mod materials;

verus! {

broadcast use vstd::std_specs::hash::group_hash_axioms;

/// Names a complex expression.
#[derive(Debug, Copy, Clone, PartialEq, Eq, Hash, Structural)]
pub struct ExpressionId(pub usize);

/// Names a loaded mesh.
#[derive(Debug, Copy, Clone, PartialEq, Eq, Hash, Structural)]
pub struct MeshId(pub usize);

/// Names a spectrum.
#[derive(Debug, Copy, Clone, PartialEq, Eq, Hash, Structural)]
pub struct SpectrumId(pub usize);

/// Names a table of the project description.
#[derive(Debug, Copy, Clone, PartialEq, Eq, Hash, Structural)]
pub struct TableId(pub usize);

/// Names a loaded color texture.
#[derive(Debug, Copy, Clone, PartialEq, Eq, Hash, Structural)]
pub struct ColorTextureId(pub usize);

/// Names a loaded single channel texture.
#[derive(Debug, Copy, Clone, PartialEq, Eq, Hash, Structural)]
pub struct MonoTextureId(pub usize);

/// The file formats of rendered images.
#[derive(Debug, Copy, Clone, PartialEq, Eq, Structural)]
pub enum ImageFormat {
    Png,
}

/// The operators of binary expressions.
#[derive(Debug, Copy, Clone, PartialEq, Eq, Structural)]
pub enum BinaryOperator {
    Add,
    Sub,
    Mul,
    Div,
}

/// The variant of a quaternion Julia set.
#[derive(Debug, PartialEq)]
pub struct JuliaType {
    pub name: String,
}

/// The kinds of quaternion multiplication of a Julia set.
#[derive(Debug, Copy, Clone, PartialEq, Eq, Structural)]
pub enum QuatMul {
    Regular,
    Cubic,
    Bicomplex,
}

/// The distance estimator of a fractal shape, with the expressions of its parameters.
#[derive(Debug, PartialEq)]
pub enum Estimator {
    Mandelbulb { iterations: Expression, threshold: Expression, power: Expression, constant: Option<Expression> },
    QuaternionJulia {
        iterations: Expression,
        threshold: Expression,
        constant: Expression,
        slice_plane: Expression,
        variant: JuliaType,
    },
}

/// How an object is placed in the scene: looking from one point towards another, with
/// an optional up direction.
#[derive(Debug, PartialEq)]
pub enum Transform {
    LookAt { from: Expression, to: Expression, up: Option<Expression> },
}

/// The outcome of reading a project: the project, the error of the configuration it is
/// written in, or what could not be made of the configuration.
#[derive(Debug, PartialEq)]
pub enum ParseResult<T> {
    Success(T),
    ParseError(Error),
    InterpretError(String),
}

/// The spectra of a project, each under the number it was added as.
pub struct Spectra<S> {
    spectra: Vec<S>,
}

impl<S> Spectra<S> {
    pub closed spec fn items(&self) -> Seq<S> {
        self.spectra@
    }

    pub fn new() -> (s: Self)
        ensures
            s.items() == Seq::<S>::empty(),
    {
        Spectra { spectra: Vec::new() }
    }

    /// The spectrum that `id` names.
    pub fn get(&self, id: SpectrumId) -> (s: &S)
        requires
            id.0 < self.items().len(),
        ensures
            *s == self.items()[id.0 as int],
    {
        &self.spectra[id.0]
    }

    /// Adds a spectrum under the next number.
    pub fn insert(&mut self, spectrum: S) -> (id: SpectrumId)
        ensures
            id.0 == old(self).items().len(),
            final(self).items() == old(self).items().push(spectrum),
    {
        let id = self.spectra.len();
        self.spectra.push(spectrum);
        SpectrumId(id)
    }
}

/// Collects spectra, each table of the description once.
pub struct SpectrumLoader<S> {
    spectra: Spectra<S>,
    table_map: HashMap<usize, SpectrumId>,
}

impl<S> SpectrumLoader<S> {
    /// The spectra loaded so far.
    pub closed spec fn loaded(&self) -> Seq<S> {
        self.spectra.items()
    }

    /// The spectrum number that each loaded table got.
    pub closed spec fn tables(&self) -> Map<usize, SpectrumId> {
        self.table_map@
    }

    /// Every table names a loaded spectrum.
    pub closed spec fn wf(&self) -> bool {
        forall|t: usize| #[trigger]
            self.table_map@.contains_key(t) ==> self.table_map@[t].0 < self.spectra.items().len()
    }

    pub fn new() -> (l: Self)
        ensures
            l.wf(),
            l.loaded() == Seq::<S>::empty(),
            l.tables() == Map::<usize, SpectrumId>::empty(),
    {
        SpectrumLoader { spectra: Spectra::new(), table_map: HashMap::new() }
    }

    /// The spectrum that the table `id` was loaded as, if it was.
    pub fn get(&self, id: TableId) -> (r: Option<SpectrumId>)
        ensures
            r == (if self.tables().contains_key(id.0) {
                Some(self.tables()[id.0])
            } else {
                None
            }),
    {
        match self.table_map.get(&id.0) {
            Some(s) => Some(*s),
            None => None,
        }
    }

    /// Loads the spectrum of the table `id`, unless the table was loaded before: then
    /// `spectrum` is dropped and the earlier number is the result.
    pub fn insert(&mut self, id: TableId, spectrum: S) -> (r: SpectrumId)
        requires
            old(self).wf(),
        ensures
            final(self).wf(),
            old(self).tables().contains_key(id.0) ==> {
                &&& r == old(self).tables()[id.0]
                &&& final(self).loaded() == old(self).loaded()
                &&& final(self).tables() == old(self).tables()
            },
            !old(self).tables().contains_key(id.0) ==> {
                &&& r.0 == old(self).loaded().len()
                &&& final(self).loaded() == old(self).loaded().push(spectrum)
                &&& final(self).tables() == old(self).tables().insert(id.0, r)
            },
            final(self).tables().contains_key(id.0),
            final(self).tables()[id.0] == r,
            final(self).loaded()[r.0 as int] == (if old(self).tables().contains_key(id.0) {
                old(self).loaded()[r.0 as int]
            } else {
                spectrum
            }),
    {
        match self.table_map.get(&id.0) {
            Some(existing) => *existing,
            None => {
                let new_id = self.spectra.insert(spectrum);
                self.table_map.insert(id.0, new_id);
                new_id
            },
        }
    }

    /// The spectra that were loaded.
    pub fn into_spectra(self) -> (s: Spectra<S>)
        ensures
            s.items() == self.loaded(),
    {
        self.spectra
    }
}

/// The meshes of a project, each under the number it was added as.
pub struct Meshes<M> {
    meshes: Vec<M>,
}

impl<M> Meshes<M> {
    pub closed spec fn items(&self) -> Seq<M> {
        self.meshes@
    }

    pub fn new() -> (m: Self)
        ensures
            m.items() == Seq::<M>::empty(),
    {
        Meshes { meshes: Vec::new() }
    }

    /// Adds a mesh under the next number.
    pub fn insert(&mut self, mesh: M) -> (id: MeshId)
        ensures
            id.0 == old(self).items().len(),
            final(self).items() == old(self).items().push(mesh),
    {
        let id = MeshId(self.meshes.len());
        self.meshes.push(mesh);
        id
    }

    /// The mesh that `id` names.
    pub fn get(&self, id: MeshId) -> (m: &M)
        requires
            id.0 < self.items().len(),
        ensures
            *m == self.items()[id.0 as int],
    {
        &self.meshes[id.0]
    }
}

/// The textures of a project: color and single channel ones, numbered apart.
pub struct Textures<C, M> {
    color_textures: Vec<Texture<C>>,
    mono_textures: Vec<Texture<M>>,
}

impl<C, M> Textures<C, M> {
    pub closed spec fn colors(&self) -> Seq<Texture<C>> {
        self.color_textures@
    }

    pub closed spec fn monos(&self) -> Seq<Texture<M>> {
        self.mono_textures@
    }

    pub fn new() -> (t: Self)
        ensures
            t.colors() == Seq::<Texture<C>>::empty(),
            t.monos() == Seq::<Texture<M>>::empty(),
    {
        Textures { color_textures: Vec::new(), mono_textures: Vec::new() }
    }

    /// The color texture that `id` names.
    pub fn get_color(&self, id: ColorTextureId) -> (t: &Texture<C>)
        requires
            id.0 < self.colors().len(),
        ensures
            *t == self.colors()[id.0 as int],
    {
        &self.color_textures[id.0]
    }

    /// The single channel texture that `id` names.
    pub fn get_mono(&self, id: MonoTextureId) -> (t: &Texture<M>)
        requires
            id.0 < self.monos().len(),
        ensures
            *t == self.monos()[id.0 as int],
    {
        &self.mono_textures[id.0]
    }

    /// Adds a color texture under the next color number.
    pub fn insert_color(&mut self, texture: Texture<C>) -> (id: ColorTextureId)
        ensures
            id.0 == old(self).colors().len(),
            final(self).colors() == old(self).colors().push(texture),
            final(self).monos() == old(self).monos(),
    {
        let id = self.color_textures.len();
        self.color_textures.push(texture);
        ColorTextureId(id)
    }

    /// Adds a single channel texture under the next single channel number.
    pub fn insert_mono(&mut self, texture: Texture<M>) -> (id: MonoTextureId)
        ensures
            id.0 == old(self).monos().len(),
            final(self).monos() == old(self).monos().push(texture),
            final(self).colors() == old(self).colors(),
    {
        let id = self.mono_textures.len();
        self.mono_textures.push(texture);
        MonoTextureId(id)
    }
}

} // verus!
