//! Extension-keyed deserialization dispatch: a registry associates file
//! extensions with named formats, and a dispatch step resolves a path in the
//! store, inspects the resolved key's extension, and decides which decoder is
//! to run, or which error to report.

use crate::paths::{bytes_eq, copy_bytes, ext_of, path_ext};
use crate::store::{
    lemma_resolution_deterministic, lemma_resolves_to_resolvable, RawAssets,
};
use crate::Error;
use vstd::prelude::*;

verus! {

/// One registered format: its name, the extensions it handles, and whether
/// its decoder is enabled in this build of the surrounding system.
pub struct FormatEntry {
    pub name: Vec<u8>,
    pub extensions: Vec<Vec<u8>>,
    pub enabled: bool,
}

/// Whether the entry `e` handles the extension `ext`.
pub open spec fn entry_handles(e: FormatEntry, ext: Seq<u8>) -> bool {
    exists|i: int| 0 <= i < e.extensions@.len() && (#[trigger] e.extensions@[i])@ == ext
}

/// The per-target-type dispatch table: formats in registration order.
pub struct Registry {
    pub formats: Vec<FormatEntry>,
}

impl Registry {
    /// Whether the format at position `i` handles `ext`.
    pub open spec fn handles_at(self, ext: Seq<u8>, i: int) -> bool {
        0 <= i < self.formats@.len() && entry_handles(self.formats@[i], ext)
    }

    /// Whether the format at position `i` is the first that handles `ext`.
    pub open spec fn first_handler(self, ext: Seq<u8>, i: int) -> bool {
        &&& self.handles_at(ext, i)
        &&& forall|j: int| 0 <= j < i ==> !entry_handles(#[trigger] self.formats@[j], ext)
    }

    /// Whether some registered format handles `ext`.
    pub open spec fn recognizes(self, ext: Seq<u8>) -> bool {
        exists|i: int| self.handles_at(ext, i)
    }

    /// An empty registry: no format is recognized.
    pub fn empty() -> (r: Registry)
        ensures
            r.formats@.len() == 0,
    {
        Registry { formats: Vec::new() }
    }

    /// Registers one more format after all formats registered so far, so
    /// that a new format never changes how existing extensions dispatch.
    pub fn register(&mut self, name: Vec<u8>, extensions: Vec<Vec<u8>>, enabled: bool)
        ensures
            final(self).formats@ == old(self).formats@.push(
                (FormatEntry { name: name, extensions: extensions, enabled: enabled }),
            ),
    {
        self.formats.push(FormatEntry { name, extensions, enabled });
    }

    /// The position of the first registered format handling `ext`, if any.
    fn lookup(&self, ext: &Vec<u8>) -> (r: Option<usize>)
        ensures
            r matches Some(i) ==> self.first_handler(ext@, i as int),
            r is Some <==> self.recognizes(ext@),
    {
        let mut i: usize = 0;
        while i < self.formats.len()
            invariant
                i <= self.formats@.len(),
                forall|j: int| 0 <= j < i ==> !entry_handles(#[trigger] self.formats@[j], ext@),
            decreases self.formats@.len() - i,
        {
            if entry_handles_exec(&self.formats[i], ext) {
                proof {
                    assert(self.handles_at(ext@, i as int));
                }
                return Some(i);
            }
            i = i + 1;
        }
        None
    }

    /// Whether a dispatch of `path` against this registry and store succeeds:
    /// the path resolves to a key whose extension is handled first by an
    /// enabled format.
    pub open spec fn dispatch_ok(self, assets: RawAssets, p: Seq<u8>) -> bool {
        exists|k: Seq<u8>, i: int|
            #[trigger] assets.resolves_to(p, k) && #[trigger] self.first_handler(ext_of(k), i)
                && self.formats@[i].enabled
    }

    /// Resolves `path` in the store, inspects the resolved key's extension,
    /// and decides which decoder runs: the resolved key and the position of
    /// the first enabled format handling the extension on success; otherwise
    /// exactly one of `NotFound` (nothing resolves), `FeatureMissing` (the
    /// extension is recognized but its decoder is disabled, named after the
    /// format) or `UnsupportedFormat` (no format recognizes the extension).
    pub fn dispatch(&self, assets: &RawAssets, path: &Vec<u8>) -> (r: Result<
        (Vec<u8>, usize),
        Error,
    >)
        requires
            assets.wf(),
        ensures
            r is Ok <==> self.dispatch_ok(*assets, path@),
            r matches Ok(res) ==> assets.resolves_to(path@, res.0@) && self.first_handler(
                ext_of(res.0@),
                res.1 as int,
            ) && self.formats@[res.1 as int].enabled,
            r matches Err(e) ==> match e {
                Error::NotFound(q) => q@ == path@ && !assets.resolvable(path@),
                Error::FeatureMissing(name, q) => assets.resolves_to(path@, q@) && (exists|i: int|
                    #[trigger] self.first_handler(ext_of(q@), i) && !self.formats@[i].enabled
                        && name@ == self.formats@[i].name@),
                Error::UnsupportedFormat(q) => assets.resolves_to(path@, q@) && !self.recognizes(
                    ext_of(q@),
                ),
            },
    {
        let k = match assets.match_path(path) {
            Ok(k) => k,
            Err(e) => {
                proof {
                    if self.dispatch_ok(*assets, path@) {
                        let (k2, i2) = choose|k2: Seq<u8>, i2: int|
                            #[trigger] assets.resolves_to(path@, k2) && #[trigger] self.first_handler(
                                ext_of(k2),
                                i2,
                            ) && self.formats@[i2].enabled;
                        lemma_resolves_to_resolvable(assets.keys(), path@, k2);
                    }
                }
                return Err(e);
            },
        };
        let ext = path_ext(&k);
        match self.lookup(&ext) {
            Some(i) => {
                if self.formats[i].enabled {
                    proof {
                        assert(assets.resolves_to(path@, k@) && self.first_handler(
                            ext_of(k@),
                            i as int,
                        ) && self.formats@[i as int].enabled);
                    }
                    Ok((k, i))
                } else {
                    let name = copy_bytes(&self.formats[i].name);
                    proof {
                        assert(self.first_handler(ext_of(k@), i as int) && !self.formats@[i as int].enabled
                            && name@ == self.formats@[i as int].name@);
                        if self.dispatch_ok(*assets, path@) {
                            let (k2, i2) = choose|k2: Seq<u8>, i2: int|
                                #[trigger] assets.resolves_to(path@, k2)
                                    && #[trigger] self.first_handler(ext_of(k2), i2)
                                    && self.formats@[i2].enabled;
                            lemma_resolution_deterministic(assets.keys(), path@, k@, k2);
                            lemma_first_handler_unique(*self, ext_of(k@), i as int, i2);
                        }
                    }
                    Err(Error::FeatureMissing(name, k))
                }
            },
            None => {
                proof {
                    if self.dispatch_ok(*assets, path@) {
                        let (k2, i2) = choose|k2: Seq<u8>, i2: int|
                            #[trigger] assets.resolves_to(path@, k2) && #[trigger] self.first_handler(
                                ext_of(k2),
                                i2,
                            ) && self.formats@[i2].enabled;
                        lemma_resolution_deterministic(assets.keys(), path@, k@, k2);
                    }
                }
                Err(Error::UnsupportedFormat(k))
            },
        }
    }
}

/// Whether the entry `e` handles the extension `ext`.
fn entry_handles_exec(e: &FormatEntry, ext: &Vec<u8>) -> (r: bool)
    ensures
        r == entry_handles(*e, ext@),
{
    let mut i: usize = 0;
    while i < e.extensions.len()
        invariant
            i <= e.extensions@.len(),
            forall|j: int| 0 <= j < i ==> (#[trigger] e.extensions@[j])@ != ext@,
        decreases e.extensions@.len() - i,
    {
        if bytes_eq(&e.extensions[i], ext) {
            return true;
        }
        i = i + 1;
    }
    false
}

/// The first format handling an extension is unique.
pub proof fn lemma_first_handler_unique(r: Registry, ext: Seq<u8>, i1: int, i2: int)
    requires
        r.first_handler(ext, i1),
        r.first_handler(ext, i2),
    ensures
        i1 == i2,
{
    if i1 < i2 {
        assert(!entry_handles(r.formats@[i1], ext));
    } else {
        if i2 < i1 {
            assert(!entry_handles(r.formats@[i2], ext));
        }
    }
}

/// The bytes of `gltf`, the name of the glTF format and its text extension.
pub open spec fn gltf_name() -> Seq<u8> {
    seq![103u8, 108u8, 116u8, 102u8]
}

/// The bytes of `glb`, the binary glTF extension.
pub open spec fn glb_ext() -> Seq<u8> {
    seq![103u8, 108u8, 98u8]
}

/// The bytes of `obj`, the name and only extension of the OBJ format.
pub open spec fn obj_name() -> Seq<u8> {
    seq![111u8, 98u8, 106u8]
}

/// The bytes of `vol`, the name and only extension of the voxel format.
pub open spec fn vol_name() -> Seq<u8> {
    seq![118u8, 111u8, 108u8]
}

/// The standard dispatch table for 3D models: the glTF format under the
/// extensions `gltf` and `glb`, then the OBJ format under `obj`, each with
/// its own availability flag.
pub open spec fn is_model_registry(r: Registry, gltf_on: bool, obj_on: bool) -> bool {
    &&& r.formats@.len() == 2
    &&& r.formats@[0].name@ == gltf_name()
    &&& r.formats@[0].extensions@.len() == 2
    &&& r.formats@[0].extensions@[0]@ == gltf_name()
    &&& r.formats@[0].extensions@[1]@ == glb_ext()
    &&& r.formats@[0].enabled == gltf_on
    &&& r.formats@[1].name@ == obj_name()
    &&& r.formats@[1].extensions@.len() == 1
    &&& r.formats@[1].extensions@[0]@ == obj_name()
    &&& r.formats@[1].enabled == obj_on
}

/// The standard dispatch table for voxel grids: the volume format alone,
/// under the extension `vol`.
pub open spec fn is_voxel_registry(r: Registry, vol_on: bool) -> bool {
    &&& r.formats@.len() == 1
    &&& r.formats@[0].name@ == vol_name()
    &&& r.formats@[0].extensions@.len() == 1
    &&& r.formats@[0].extensions@[0]@ == vol_name()
    &&& r.formats@[0].enabled == vol_on
}

/// Three fixed bytes as an owned buffer.
fn bytes3(a: u8, b: u8, c: u8) -> (r: Vec<u8>)
    ensures
        r@ == seq![a, b, c],
{
    let mut v: Vec<u8> = Vec::new();
    v.push(a);
    v.push(b);
    v.push(c);
    proof {
        assert(v@ =~= seq![a, b, c]);
    }
    v
}

/// Four fixed bytes as an owned buffer.
fn bytes4(a: u8, b: u8, c: u8, d: u8) -> (r: Vec<u8>)
    ensures
        r@ == seq![a, b, c, d],
{
    let mut v: Vec<u8> = Vec::new();
    v.push(a);
    v.push(b);
    v.push(c);
    v.push(d);
    proof {
        assert(v@ =~= seq![a, b, c, d]);
    }
    v
}

/// The standard model table.
pub fn model_registry(gltf_enabled: bool, obj_enabled: bool) -> (r: Registry)
    ensures
        is_model_registry(r, gltf_enabled, obj_enabled),
{
    let mut r = Registry::empty();
    let mut gltf_exts: Vec<Vec<u8>> = Vec::new();
    gltf_exts.push(bytes4(103, 108, 116, 102));
    gltf_exts.push(bytes3(103, 108, 98));
    r.register(bytes4(103, 108, 116, 102), gltf_exts, gltf_enabled);
    let mut obj_exts: Vec<Vec<u8>> = Vec::new();
    obj_exts.push(bytes3(111, 98, 106));
    r.register(bytes3(111, 98, 106), obj_exts, obj_enabled);
    r
}

/// The standard voxel-grid table.
pub fn voxel_registry(vol_enabled: bool) -> (r: Registry)
    ensures
        is_voxel_registry(r, vol_enabled),
{
    let mut r = Registry::empty();
    let mut vol_exts: Vec<Vec<u8>> = Vec::new();
    vol_exts.push(bytes3(118, 111, 108));
    r.register(bytes3(118, 111, 108), vol_exts, vol_enabled);
    r
}

/// In the standard model table, the extension `obj` is handled by the OBJ
/// entry and by it alone, so a dispatch of an `obj` path succeeds exactly
/// when the OBJ decoder is enabled, and otherwise reports `FeatureMissing`
/// under the OBJ format's name.
pub proof fn lemma_model_obj_dispatch(r: Registry, gltf_on: bool, obj_on: bool)
    requires
        is_model_registry(r, gltf_on, obj_on),
    ensures
        r.first_handler(obj_name(), 1),
        forall|i: int| r.first_handler(obj_name(), i) ==> i == 1,
        r.formats@[1].enabled == obj_on,
        r.formats@[1].name@ == obj_name(),
{
    assert(entry_handles(r.formats@[1], obj_name())) by {
        assert((r.formats@[1].extensions@[0])@ == obj_name());
    }
    assert(!entry_handles(r.formats@[0], obj_name())) by {
        if entry_handles(r.formats@[0], obj_name()) {
            let i = choose|i: int|
                0 <= i < r.formats@[0].extensions@.len() && (#[trigger] r.formats@[0].extensions@[i])@
                    == obj_name();
            if i == 0 {
                assert(gltf_name().len() == 4 && obj_name().len() == 3);
            } else {
                assert(glb_ext()[0] == 103u8 && obj_name()[0] == 111u8);
            }
        }
    }
    assert forall|i: int| r.first_handler(obj_name(), i) implies i == 1 by {
        lemma_first_handler_unique(r, obj_name(), i, 1);
    }
}

/// In the standard model table, an extension other than `gltf`, `glb` and
/// `obj` is recognized by no format, so dispatch of such a path reports
/// `UnsupportedFormat`.
pub proof fn lemma_model_unknown_ext(r: Registry, gltf_on: bool, obj_on: bool, ext: Seq<u8>)
    requires
        is_model_registry(r, gltf_on, obj_on),
        ext != gltf_name(),
        ext != glb_ext(),
        ext != obj_name(),
    ensures
        !r.recognizes(ext),
{
    assert forall|i: int| !r.handles_at(ext, i) by {
        if r.handles_at(ext, i) {
            let j = choose|j: int|
                0 <= j < r.formats@[i].extensions@.len() && (#[trigger] r.formats@[i].extensions@[j])@
                    == ext;
            if i == 0 {
                if j == 0 {
                    assert(ext == gltf_name());
                } else {
                    assert(ext == glb_ext());
                }
            } else {
                assert(ext == obj_name());
            }
        }
    }
}

/// The contract each format decoder implements, as the surrounding system's
/// collaborator: given the store and a path, consume the asset's bytes
/// (typically via `remove`), resolve and consume any referenced
/// sub-resources from the same store, and produce the decoded value or a
/// decoder-specific error. The store must stay well formed.
pub trait Deserialize: Sized {
    fn deserialize(assets: &mut RawAssets, path: &Vec<u8>) -> (r: Result<Self, Error>)
        requires
            old(assets).wf(),
        ensures
            final(assets).wf(),
    ;
}

impl RawAssets {
    /// Deserializes the asset resolved from `path` into any type
    /// implementing `Deserialize`, handing the decoder the whole store so
    /// that it can consume its own bytes and referenced sub-resources.
    pub fn deserialize<T: Deserialize>(&mut self, path: &Vec<u8>) -> (r: Result<T, Error>)
        requires
            old(self).wf(),
        ensures
            final(self).wf(),
    {
        T::deserialize(self, path)
    }
}

} // verus!
