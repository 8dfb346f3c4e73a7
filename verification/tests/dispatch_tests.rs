use raw_assets::dispatch::{model_registry, voxel_registry, Deserialize, Registry};
use raw_assets::store::RawAssets;
use raw_assets::Error;

fn bytes(s: &[u8]) -> Vec<u8> {
    s.to_vec()
}

#[test]
fn obj_feature_missing_when_disabled() {
    let mut assets = RawAssets::new();
    assets.insert(&bytes(b"model.obj"), bytes(b"OBJDATA"));
    let registry = model_registry(false, false);
    let err = assets_dispatch_err(&registry, &assets, b"model.obj");
    assert_eq!(err, Error::FeatureMissing(bytes(b"obj"), bytes(b"model.obj")));
}

#[test]
fn obj_dispatches_when_enabled() {
    let mut assets = RawAssets::new();
    assets.insert(&bytes(b"model.obj"), bytes(b"OBJDATA"));
    let registry = model_registry(false, true);
    let (resolved, format) = registry.dispatch(&assets, &bytes(b"model.obj")).unwrap();
    assert_eq!(resolved, bytes(b"model.obj"));
    assert_eq!(format, 1);
}

#[test]
fn unknown_extension_is_unsupported() {
    let mut assets = RawAssets::new();
    assets.insert(&bytes(b"model.unknown"), bytes(b"DATA"));
    let registry = model_registry(true, true);
    let err = assets_dispatch_err(&registry, &assets, b"model.unknown");
    assert_eq!(err, Error::UnsupportedFormat(bytes(b"model.unknown")));
}

#[test]
fn glb_dispatches_to_gltf_entry() {
    let mut assets = RawAssets::new();
    assets.insert(&bytes(b"scene.glb"), bytes(b"GLB"));
    let registry = model_registry(true, false);
    let (resolved, format) = assets_dispatch_ok(&registry, &assets, b"scene.glb");
    assert_eq!(resolved, bytes(b"scene.glb"));
    assert_eq!(format, 0);
}

#[test]
fn gltf_feature_missing_names_gltf() {
    let mut assets = RawAssets::new();
    assets.insert(&bytes(b"scene.gltf"), bytes(b"GLTF"));
    let registry = model_registry(false, true);
    let err = assets_dispatch_err(&registry, &assets, b"scene.gltf");
    assert_eq!(err, Error::FeatureMissing(bytes(b"gltf"), bytes(b"scene.gltf")));
}

#[test]
fn dispatch_of_missing_path_is_not_found() {
    let assets = RawAssets::new();
    let registry = model_registry(true, true);
    let err = assets_dispatch_err(&registry, &assets, b"nowhere.obj");
    assert_eq!(err, Error::NotFound(bytes(b"nowhere.obj")));
}

#[test]
fn dispatch_resolves_tolerantly_before_inspecting_extension() {
    let mut assets = RawAssets::new();
    assets.insert(&bytes(b"models\\ship.obj"), bytes(b"SHIP"));
    let registry = model_registry(true, true);
    let (resolved, format) = assets_dispatch_ok(&registry, &assets, b"ship.obj");
    assert_eq!(resolved, bytes(b"models/ship.obj"));
    assert_eq!(format, 1);
}

#[test]
fn voxel_table_handles_vol_alone() {
    let mut assets = RawAssets::new();
    assets.insert(&bytes(b"grid.vol"), bytes(b"VOL"));
    assets.insert(&bytes(b"grid.obj"), bytes(b"OBJ"));
    let enabled = voxel_registry(true);
    let (resolved, format) = assets_dispatch_ok(&enabled, &assets, b"grid.vol");
    assert_eq!(resolved, bytes(b"grid.vol"));
    assert_eq!(format, 0);
    let err = assets_dispatch_err(&enabled, &assets, b"grid.obj");
    assert_eq!(err, Error::UnsupportedFormat(bytes(b"grid.obj")));
    let disabled = voxel_registry(false);
    let err = assets_dispatch_err(&disabled, &assets, b"grid.vol");
    assert_eq!(err, Error::FeatureMissing(bytes(b"vol"), bytes(b"grid.vol")));
}

#[test]
fn hidden_file_has_no_extension() {
    let mut assets = RawAssets::new();
    assets.insert(&bytes(b"dir/.obj"), bytes(b"HIDDEN"));
    let registry = model_registry(true, true);
    let err = assets_dispatch_err(&registry, &assets, b"dir/.obj");
    assert_eq!(err, Error::UnsupportedFormat(bytes(b"dir/.obj")));
}

#[test]
fn registration_extends_the_table_without_touching_the_store() {
    let mut assets = RawAssets::new();
    assets.insert(&bytes(b"anim.fbx"), bytes(b"FBX"));
    let mut registry = model_registry(true, true);
    let err = assets_dispatch_err(&registry, &assets, b"anim.fbx");
    assert_eq!(err, Error::UnsupportedFormat(bytes(b"anim.fbx")));
    registry.register(bytes(b"fbx"), vec![bytes(b"fbx")], true);
    let (resolved, format) = assets_dispatch_ok(&registry, &assets, b"anim.fbx");
    assert_eq!(resolved, bytes(b"anim.fbx"));
    assert_eq!(format, 2);
}

// A toy scene decoder: its primary buffer holds the path of one referenced
// sub-resource, which it consumes from the same store.
struct SceneBlob {
    reference: Vec<u8>,
    linked: Vec<u8>,
}

impl Deserialize for SceneBlob {
    fn deserialize(assets: &mut RawAssets, path: &Vec<u8>) -> Result<Self, Error> {
        let primary = assets.remove(path)?;
        let linked = assets.remove(&primary)?;
        Ok(SceneBlob { reference: primary, linked })
    }
}

#[test]
fn round_trip_consumes_primary_and_sub_resource() {
    let mut assets = RawAssets::new();
    assets.insert(&bytes(b"scene.gltf"), bytes(b"tex.png"));
    assets.insert(&bytes(b"tex.png"), bytes(b"PNGDATA"));
    let scene: SceneBlob = assets.deserialize(&bytes(b"scene.gltf")).unwrap();
    assert_eq!(scene.reference, bytes(b"tex.png"));
    assert_eq!(scene.linked, bytes(b"PNGDATA"));
    assert_eq!(assets.len(), 0);
    let err = assets.get(&bytes(b"scene.gltf")).unwrap_err();
    assert_eq!(err, Error::NotFound(bytes(b"scene.gltf")));
}

fn assets_dispatch_ok(registry: &Registry, assets: &RawAssets, path: &[u8]) -> (Vec<u8>, usize) {
    registry.dispatch(assets, &path.to_vec()).unwrap()
}

fn assets_dispatch_err(registry: &Registry, assets: &RawAssets, path: &[u8]) -> Error {
    registry.dispatch(assets, &path.to_vec()).unwrap_err()
}
