use butterflyvr::pck::{is_pck_good, HeaderError, ObjectError, PckError, SceneError};
use butterflyvr::scene_grammar::{value_at_cursor, Scan};

const PREFIX: &str = "_loaded_content/avatar/1234/";

fn le32(v: u32) -> Vec<u8> {
    v.to_le_bytes().to_vec()
}

fn le64(v: u64) -> Vec<u8> {
    v.to_le_bytes().to_vec()
}

/// A pack with the given files (path and bytes): header, the files' data,
/// then the directory, then some padding.
fn pack(files: &[(&str, &[u8])]) -> Vec<u8> {
    pack_with_versions(files, 3, 4, 6)
}

fn pack_with_versions(files: &[(&str, &[u8])], v1: u32, v2: u32, v3: u32) -> Vec<u8> {
    let header_len = 4 + 12 + 8 + 8 + 8;
    let base = header_len as u64;
    let mut data = Vec::new();
    let mut offsets = Vec::new();
    for (_, bytes) in files {
        offsets.push(data.len() as u64);
        data.extend_from_slice(bytes);
        data.extend_from_slice(b"\n\n");
    }
    let dir = base + data.len() as u64;
    let mut out = Vec::new();
    out.extend(le32(0x43504447));
    out.extend(le32(v1));
    out.extend(le32(v2));
    out.extend(le32(v3));
    out.extend(le64(0));
    out.extend(le64(base));
    out.extend(le64(dir));
    out.extend(data);
    out.extend(le32(files.len() as u32));
    for (i, (path, bytes)) in files.iter().enumerate() {
        out.extend(le32(path.len() as u32));
        out.extend_from_slice(path.as_bytes());
        out.extend(le64(offsets[i]));
        out.extend(le64(bytes.len() as u64));
        out.extend(vec![0u8; 20]);
    }
    out.extend(vec![b'\n'; 16]);
    out
}

fn whitelist() -> Vec<Vec<u8>> {
    vec![b"StandardMaterial3D".to_vec(), b"BoxMesh".to_vec()]
}

fn check(files: &[(&str, &[u8])]) -> Result<(), PckError> {
    is_pck_good(&pack(files), b"avatar", b"1234", &whitelist())
}

fn path(name: &str) -> String {
    format!("{}{}", PREFIX, name)
}

#[test]
fn a_plain_scene_passes() {
    let scene: &[u8] = b"[gd_scene format=3]\n\n[node name=\"Root\" type=\"Node3D\"]\ntransform = Transform3D(1, 0, 0, 0, 1, 0, 0, 0, 1, 0, 0, 0)\n\n[sub_resource type=\"BoxMesh\" id=\"1\"]\nsize = Vector3(1, 2, 3)\n";
    assert!(check(&[(&path("main.tscn"), scene), (&path("tex.png"), b"png")]).is_ok());
}

#[test]
fn the_magic_number_and_versions_are_checked() {
    let mut p = pack(&[]);
    p[0] = b'X';
    assert!(matches!(is_pck_good(&p, b"avatar", b"1234", &whitelist()), Err(PckError::BadMagic(0x43504458))));
    let p = pack_with_versions(&[], 2, 4, 6);
    assert!(matches!(is_pck_good(&p, b"avatar", b"1234", &whitelist()), Err(PckError::VersionMismatch(2, 3))));
    let p = pack_with_versions(&[], 3, 4, 5);
    assert!(matches!(is_pck_good(&p, b"avatar", b"1234", &whitelist()), Err(PckError::VersionMismatch(5, 6))));
}

#[test]
fn paths_must_lie_in_the_contents_directory() {
    match check(&[("_loaded_content/other/1234/a.png", b"x")]) {
        Err(PckError::UnwantedPath(p)) => assert_eq!(p, b"_loaded_content/other/1234/a.png".to_vec()),
        other => panic!("unexpected {:?}", other),
    }
    assert!(matches!(check(&[(&path("../a.png"), b"x")]), Err(PckError::UnwantedPath(_))));
}

#[test]
fn scripts_and_binary_scenes_are_refused() {
    assert!(matches!(check(&[(&path("player.GD"), b"x")]), Err(PckError::BadExtension(_))));
    assert!(matches!(check(&[(&path("mat.tres"), b"x")]), Err(PckError::BadExtension(_))));
    assert!(matches!(check(&[(&path("level.scn"), b"x")]), Err(PckError::UnsupportedExtension(_))));
}

#[test]
fn a_scene_must_start_with_its_header() {
    match check(&[(&path("a.tscn"), b"[gd_scene format=2]\n")]) {
        Err(PckError::Scene(_, SceneError::InvalidHeader)) => {}
        other => panic!("unexpected {:?}", other),
    }
}

#[test]
fn external_resources_and_connections_are_refused() {
    let scene: &[u8] = b"[gd_scene format=3]\n[ext_resource type=\"Script\" path=\"res://a.gd\" id=\"1\"]\n";
    assert!(matches!(check(&[(&path("a.tscn"), scene)]), Err(PckError::Scene(_, SceneError::Header(HeaderError::ExtResourceType)))));
    let scene: &[u8] = b"[gd_scene format=3]\n[connection signal=\"a\" from=\".\" to=\".\" method=\"b\"]\n";
    assert!(matches!(check(&[(&path("a.tscn"), scene)]), Err(PckError::Scene(_, SceneError::Header(HeaderError::ConnectionType)))));
}

#[test]
fn sub_resources_must_have_an_allowed_type() {
    let scene: &[u8] = b"[gd_scene format=3]\n[sub_resource type=\"GDScript\" id=\"1\"]\nscript/source = \"x\"\n";
    assert!(matches!(check(&[(&path("a.tscn"), scene)]), Err(PckError::Scene(_, SceneError::Object(ObjectError::BadResource)))));
}

#[test]
fn inline_objects_are_refused() {
    let scene: &[u8] = b"[gd_scene format=3]\n[node name=\"A\" type=\"Node\"]\nmeta = Object(Node,\"script\":null)\n";
    assert!(matches!(check(&[(&path("a.tscn"), scene)]), Err(PckError::Scene(_, SceneError::Object(ObjectError::InlineObjectValue)))));
}

#[test]
fn a_byte_outside_any_object_is_refused() {
    let scene: &[u8] = b"[gd_scene format=3]\nx";
    match check(&[(&path("a.tscn"), scene)]) {
        Err(PckError::Scene(_, SceneError::UnexpectedByte(b'x', _))) => {}
        other => panic!("unexpected {:?}", other),
    }
}

fn scan(text: &str) -> Scan {
    let mut bytes = text.as_bytes().to_vec();
    bytes.push(0);
    value_at_cursor(&bytes)
}

#[test]
fn values_of_the_scene_grammar() {
    assert_eq!(scan("1.5e-3\n"), Scan::Done(6));
    assert_eq!(scan("\"a \\\" b\"\n"), Scan::Done(8));
    assert_eq!(scan("[1, \"two\", Vector2(3, 4)]\n"), Scan::Done(25));
    assert_eq!(scan("{\"a\": 1, \"b\": [true, null]}\n"), Scan::Done(27));
    assert_eq!(scan("PackedByteArray(\"AAEC\")\n"), Scan::Done(23));
    assert_eq!(scan("Array[int]([1, 2])\n"), Scan::Done(18));
    assert_eq!(scan("&\"name\"\n"), Scan::Done(7));
    assert_eq!(scan("Object(Node,\"a\":1)\n"), Scan::InlineObject);
    assert_eq!(scan("[1, 2"), Scan::Mismatch);
    assert_eq!(value_at_cursor(b"[1, 2"), Scan::NeedMore);
}
