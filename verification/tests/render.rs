use pyrite::program::{NumberRegister, RegisterCounter, RegisterIndex, RgbRegister, VectorRegister};
use pyrite::project::{
    ColorTextureId, MeshId, Meshes, MonoTextureId, Spectra, SpectrumId, SpectrumLoader, TableId,
    Textures,
};
use pyrite::renderer::photon_mapping::LightMode;
use pyrite::renderer::{default_threads, Algorithm, Config, Renderer, RendererShared};
use pyrite::spatial::{Dim3, Dimensions};
use pyrite::texture::{wrap_index, Texture};

fn shared(threads: Option<usize>) -> RendererShared {
    RendererShared {
        threads,
        bounces: None,
        pixel_samples: 4,
        light_samples: None,
        spectrum_samples: None,
        spectrum_resolution: None,
        tile_size: None,
    }
}

#[test]
fn register_counter_hands_out_in_order() {
    let mut numbers: RegisterCounter<NumberRegister> = RegisterCounter::new();
    assert_eq!(numbers.count(), 0);
    assert_eq!(numbers.next(), NumberRegister(0));
    assert_eq!(numbers.next(), NumberRegister(1));
    assert_eq!(numbers.count(), 2);

    let mut colors: RegisterCounter<RgbRegister> = RegisterCounter::new();
    assert_eq!(colors.next(), RgbRegister(0));
    let mut vectors: RegisterCounter<VectorRegister> = RegisterCounter::new();
    assert_eq!(vectors.next(), VectorRegister(0));
    assert_eq!(vectors.next(), VectorRegister(1));
    assert_eq!(vectors.count(), 2);
}

#[test]
fn register_index_steps() {
    assert_eq!(NumberRegister::first().index(), 0);
    assert_eq!(NumberRegister(41).next(), NumberRegister(42));
    assert_eq!(RgbRegister(7).index(), 7);
}

#[test]
fn axes_cycle() {
    let x = Dim3::first();
    assert_eq!(x, Dim3::X);
    assert_eq!(x.next(), Dim3::Y);
    assert_eq!(x.next().next(), Dim3::Z);
    assert_eq!(x.next().next().next(), Dim3::X);
}

#[test]
fn wrap_index_is_euclidean() {
    assert_eq!(wrap_index(0, 4), 0);
    assert_eq!(wrap_index(5, 4), 1);
    assert_eq!(wrap_index(-1, 4), 3);
    assert_eq!(wrap_index(-4, 4), 0);
    assert_eq!(wrap_index(-5, 4), 3);
    assert_eq!(wrap_index(i64::MIN, 3), (i64::MIN as i128).rem_euclid(3) as usize);
}

#[test]
fn texture_neighbourhood_wraps() {
    // A 3 by 2 image whose pixels are numbered row by row.
    let t = Texture::new(3, 2, vec![0, 1, 2, 10, 11, 12]);
    assert_eq!(t.width(), 3);
    assert_eq!(t.height(), 2);
    assert_eq!(t.color_at(2, 1), 12);
    let n = t.neighbourhood(0, 0);
    assert_eq!(n[0], [12, 10, 11, 12]);
    assert_eq!(n[1], [2, 0, 1, 2]);
    assert_eq!(n[2], [12, 10, 11, 12]);
    assert_eq!(n[3], [2, 0, 1, 2]);
}

#[test]
fn spectra_keep_their_numbers() {
    let mut spectra = Spectra::new();
    let a = spectra.insert("a");
    let b = spectra.insert("b");
    assert_eq!(a, SpectrumId(0));
    assert_eq!(b, SpectrumId(1));
    assert_eq!(*spectra.get(b), "b");
}

#[test]
fn spectrum_loader_loads_each_table_once() {
    let mut loader = SpectrumLoader::new();
    assert_eq!(loader.get(TableId(7)), None);
    let first = loader.insert(TableId(7), "seven");
    let other = loader.insert(TableId(3), "three");
    let again = loader.insert(TableId(7), "dropped");
    assert_eq!(first, SpectrumId(0));
    assert_eq!(other, SpectrumId(1));
    assert_eq!(again, first);
    assert_eq!(loader.get(TableId(7)), Some(first));
    let spectra = loader.into_spectra();
    assert_eq!(*spectra.get(first), "seven");
    assert_eq!(*spectra.get(other), "three");
}

#[test]
fn meshes_and_textures_are_numbered() {
    let mut meshes = Meshes::new();
    assert_eq!(meshes.insert("cube"), MeshId(0));
    assert_eq!(meshes.insert("sphere"), MeshId(1));
    assert_eq!(*meshes.get(MeshId(1)), "sphere");

    let mut textures: Textures<u8, u16> = Textures::new();
    let c = textures.insert_color(Texture::new(1, 1, vec![9u8]));
    let m = textures.insert_mono(Texture::new(1, 1, vec![300u16]));
    assert_eq!(c, ColorTextureId(0));
    assert_eq!(m, MonoTextureId(0));
    assert_eq!(textures.get_color(c).color_at(0, 0), 9);
    assert_eq!(textures.get_mono(m).color_at(0, 0), 300);
}

#[test]
fn default_threads_leave_one_processor() {
    assert_eq!(default_threads(0), 1);
    assert_eq!(default_threads(1), 1);
    assert_eq!(default_threads(2), 1);
    assert_eq!(default_threads(8), 7);
}

#[test]
fn renderer_fills_in_defaults() {
    let algorithm = Algorithm::Simple(Config { direct_light: true });
    let r = Renderer::with_processors(shared(None), algorithm, 4);
    assert_eq!(
        r,
        Renderer {
            threads: 3,
            bounces: 8,
            pixel_samples: 4,
            spectrum_samples: 10,
            spectrum_bins: 64,
            tile_size: 32,
            algorithm,
        }
    );
    let mut given = shared(Some(2));
    given.bounces = Some(3);
    given.tile_size = Some(16);
    let r = Renderer::from_shared(given, algorithm);
    assert_eq!(r.threads, 2);
    assert_eq!(r.bounces, 3);
    assert_eq!(r.tile_size, 16);
    assert!(Renderer::from_shared(shared(None), algorithm).threads >= 1);
}

#[test]
fn light_mode_presence() {
    let coherent: LightMode<Option<u8>, Vec<Option<u8>>> = LightMode::Coherent(Some(3));
    assert!(coherent.is_some());
    assert_eq!(coherent.iter(), vec![&3]);
    let missing: LightMode<Option<u8>, Vec<Option<u8>>> = LightMode::Coherent(None);
    assert!(!missing.is_some());
    assert!(missing.iter().is_empty());
    let dispersed: LightMode<Option<u8>, Vec<Option<u8>>> = LightMode::Dispersed(vec![Some(1), None, Some(2)]);
    assert!(!dispersed.is_some());
    assert_eq!(dispersed.iter(), vec![&1, &2]);
    let full: LightMode<Option<u8>, Vec<Option<u8>>> = LightMode::Dispersed(vec![Some(1), Some(2)]);
    assert!(full.is_some());
}
