use pakserve::PakErrorKind;
use pakserve::service::ServiceState;

fn push_u32(out: &mut Vec<u8>, n: u32) {
    out.extend_from_slice(&n.to_le_bytes());
}

fn push_blob(out: &mut Vec<u8>, b: &[u8]) {
    push_u32(out, b.len() as u32);
    out.extend_from_slice(b);
}

fn app_manifest(pkgs: &[(&[u8], &[&[u8]])]) -> Vec<u8> {
    let mut out = Vec::new();
    push_u32(&mut out, pkgs.len() as u32);
    for (name, chunks) in pkgs {
        let mut pkg = Vec::new();
        push_blob(&mut pkg, name);
        push_u32(&mut pkg, chunks.len() as u32);
        for c in *chunks {
            push_blob(&mut pkg, c);
        }
        push_blob(&mut out, &pkg);
    }
    out
}

fn chunk_manifest(ids: &[&[u8]]) -> Vec<u8> {
    let mut out = Vec::new();
    push_u32(&mut out, ids.len() as u32);
    for id in ids {
        push_blob(&mut out, id);
    }
    out
}

#[test]
fn from_manifests_lists_names_in_declaration_order() {
    let app = app_manifest(&[
        (b"base.pak", &[b"a", b"b"]),
        (b"lang.pak", &[b"c"]),
        (b"extra.pak", &[]),
    ]);
    let chunk = chunk_manifest(&[b"a", b"b", b"c"]);
    let service = ServiceState::from_manifests(&app, &chunk).unwrap();
    let names = service.get_paks();
    assert_eq!(
        names,
        vec![b"base.pak".to_vec(), b"lang.pak".to_vec(), b"extra.pak".to_vec()]
    );
}

#[test]
fn from_manifests_empty_pair() {
    let app = app_manifest(&[]);
    let chunk = chunk_manifest(&[]);
    let service = ServiceState::from_manifests(&app, &chunk).unwrap();
    assert!(service.get_paks().is_empty());
}

#[test]
fn duplicate_package_names_are_preserved() {
    let app = app_manifest(&[(b"base.pak", &[b"a"]), (b"base.pak", &[b"b"])]);
    let chunk = chunk_manifest(&[b"a", b"b"]);
    let service = ServiceState::from_manifests(&app, &chunk).unwrap();
    let names = service.get_paks();
    assert_eq!(names, vec![b"base.pak".to_vec(), b"base.pak".to_vec()]);
}

#[test]
fn truncated_app_manifest_is_manifest_error() {
    let app = vec![1, 0, 0];
    let chunk = chunk_manifest(&[]);
    assert_eq!(
        ServiceState::from_manifests(&app, &chunk).err().unwrap().kind,
        PakErrorKind::ManifestError
    );
}

#[test]
fn overlong_count_in_app_manifest_is_manifest_error() {
    let mut app = Vec::new();
    push_u32(&mut app, 5);
    let chunk = chunk_manifest(&[]);
    assert_eq!(
        ServiceState::from_manifests(&app, &chunk).err().unwrap().kind,
        PakErrorKind::ManifestError
    );
}

#[test]
fn trailing_bytes_in_app_manifest_is_manifest_error() {
    let mut app = app_manifest(&[(b"base.pak", &[b"a"])]);
    app.push(0);
    let chunk = chunk_manifest(&[b"a"]);
    assert_eq!(
        ServiceState::from_manifests(&app, &chunk).err().unwrap().kind,
        PakErrorKind::ManifestError
    );
}

#[test]
fn truncated_chunk_manifest_is_manifest_error() {
    let app = app_manifest(&[]);
    let chunk = vec![2, 0, 0, 0, 1];
    assert_eq!(
        ServiceState::from_manifests(&app, &chunk).err().unwrap().kind,
        PakErrorKind::ManifestError
    );
}

#[test]
fn dangling_chunk_reference_is_catalog_inconsistency() {
    let app = app_manifest(&[(b"base.pak", &[b"a", b"missing"])]);
    let chunk = chunk_manifest(&[b"a"]);
    let err = ServiceState::from_manifests(&app, &chunk).err().unwrap();
    assert_eq!(err.kind, PakErrorKind::CatalogInconsistency);
    assert_eq!(err.resource, b"missing".to_vec());
}

#[test]
fn garbage_package_blob_is_manifest_error() {
    let mut app = Vec::new();
    push_u32(&mut app, 1);
    push_blob(&mut app, b"xy");
    let chunk = chunk_manifest(&[]);
    assert_eq!(
        ServiceState::from_manifests(&app, &chunk).err().unwrap().kind,
        PakErrorKind::ManifestError
    );
}
