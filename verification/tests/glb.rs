use worldrenderer::glb::{
    can_open, parse_glb, read_texture, readable, try_parse_glb, walk, GlbAccessor, GlbAttributes,
    GlbBufferView, GlbImage, GlbModel, GlbNode, GlbOutline, Reading, KIND_F32, KIND_U16, ONE_BITS,
};
use worldrenderer::model::{decode, encode, Bits2, Bits3, ModelData, ModelVertex};

fn glb_file(json: &str, bin: &[u8]) -> Vec<u8> {
    let mut text: Vec<u8> = json.as_bytes().to_vec();
    while text.len() % 4 != 0 {
        text.push(b' ');
    }
    let mut bytes: Vec<u8> = bin.to_vec();
    while bytes.len() % 4 != 0 {
        bytes.push(0);
    }
    let word = |n: usize| (n as u32).to_le_bytes();
    let mut out: Vec<u8> = b"glTF".to_vec();
    out.extend(word(2));
    out.extend(word(12 + 8 + text.len() + 8 + bytes.len()));
    out.extend(word(text.len()));
    out.extend(b"JSON");
    out.extend(text);
    out.extend(word(bytes.len()));
    out.extend(b"BIN\0");
    out.extend(bytes);
    out
}

/// Three corners, their texture coordinates and three indices.
fn corners() -> Vec<u8> {
    let mut bin: Vec<u8> = vec![];
    for f in [0.0f32, 0.0, 0.0, 1.0, 0.0, 0.0, 0.0, 2.0, 0.0] {
        bin.extend(f.to_le_bytes());
    }
    for f in [0.0f32, 0.25, 0.5, 0.75, 1.0, 0.125] {
        bin.extend(f.to_le_bytes());
    }
    for i in [2u16, 1, 0] {
        bin.extend(i.to_le_bytes());
    }
    bin
}

fn document(nodes: &str, mesh: &str, more: &str) -> String {
    format!(
        "{{\"asset\":{{\"version\":\"2.0\"}},\
         \"buffers\":[{{\"byteLength\":200}}],\
         \"bufferViews\":[{{\"buffer\":0,\"byteLength\":36}},\
         {{\"buffer\":0,\"byteOffset\":36,\"byteLength\":24}},\
         {{\"buffer\":0,\"byteOffset\":60,\"byteLength\":6}},\
         {{\"buffer\":0,\"byteOffset\":68,\"byteLength\":100}}],\
         \"accessors\":[{{\"bufferView\":0,\"componentType\":5126,\"count\":3,\"type\":\"VEC3\",\
         \"min\":[0,0,0],\"max\":[1,2,0]}},\
         {{\"bufferView\":1,\"componentType\":5126,\"count\":3,\"type\":\"VEC2\"}},\
         {{\"bufferView\":2,\"componentType\":5123,\"count\":3,\"type\":\"SCALAR\"}}],\
         \"scene\":0,{},\"meshes\":[{}]{}}}",
        nodes, mesh, more
    )
}

const TRIANGLE: &str = "{\"primitives\":[{\"attributes\":{\"POSITION\":0,\"TEXCOORD_0\":1},\
     \"indices\":2}]}";

const BARE: &str = "{\"primitives\":[{\"attributes\":{\"POSITION\":0}}]}";

#[test]
fn a_triangle_is_read() {
    let json = document("\"scenes\":[{\"nodes\":[0]}],\"nodes\":[{\"mesh\":0}]", TRIANGLE, "");
    let model = parse_glb(&glb_file(&json, &corners())).unwrap();
    assert_eq!(model.vertices.len(), 3);
    let v = model.vertices[2];
    assert_eq!(v.pos, Bits3 { x: 0, y: 2.0f32.to_bits(), z: 0 });
    assert_eq!(v.nrm, Bits3 { x: 0, y: ONE_BITS, z: 0 });
    assert_eq!(v.uv, Bits2 { x: 1.0f32.to_bits(), y: 0.125f32.to_bits() });
    assert_eq!(model.indices, [2, 1, 0]);
    assert!(model.texture.is_none());
    assert_eq!(model.pieces.len(), 1);
    assert_eq!((model.pieces[0].from, model.pieces[0].count), (0, 3));
    assert_eq!(model.pieces[0].way, [0]);
}

#[test]
fn nodes_are_visited_last_first_and_before_their_children() {
    let nodes = "\"scenes\":[{\"nodes\":[0,3]}],\"nodes\":[{\"mesh\":0,\"children\":[1,2]},\
         {\"mesh\":0},{\"mesh\":0},{\"mesh\":0}]";
    let json = document(nodes, BARE, "");
    let model = try_parse_glb(&glb_file(&json, &corners()), 4).unwrap().unwrap();
    let ways: Vec<Vec<usize>> = model.pieces.iter().map(|p| p.way.clone()).collect();
    assert_eq!(ways, [vec![3], vec![0], vec![0, 2], vec![0, 1]]);
    let froms: Vec<u32> = model.pieces.iter().map(|p| p.from).collect();
    assert_eq!(froms, [0, 3, 6, 9]);
    assert_eq!(model.indices, (0..12).collect::<Vec<u32>>());
    assert!(try_parse_glb(&glb_file(&json, &corners()), 3).is_none());
}

#[test]
fn files_without_triangles_are_refused() {
    let empty = "{\"asset\":{\"version\":\"2.0\"}}";
    assert_eq!(
        try_parse_glb(empty.as_bytes(), 9).unwrap().err(),
        Some("glb has no scene".to_string())
    );
    let json = document("\"scenes\":[{\"nodes\":[0]}],\"nodes\":[{}]", TRIANGLE, "");
    assert_eq!(
        parse_glb(&glb_file(&json, &corners())).err(),
        Some("glb has no triangles".to_string())
    );
    let lines = "{\"primitives\":[{\"mode\":1,\"attributes\":{\"POSITION\":0}}]}";
    let json = document("\"scenes\":[{\"nodes\":[0]}],\"nodes\":[{\"mesh\":0}]", lines, "");
    assert_eq!(
        parse_glb(&glb_file(&json, &corners())).err(),
        Some("glb has no triangles".to_string())
    );
    assert!(try_parse_glb(b"nothing", 9).unwrap().is_err());
}

#[test]
fn files_that_cannot_be_read_give_no_answer() {
    let mut short = glb_file("{}", &[]);
    short[8] = 11;
    short[9] = 0;
    assert!(try_parse_glb(&short, 9).is_none());
    let round = "\"scenes\":[{\"nodes\":[0]}],\"nodes\":[{\"mesh\":0,\"children\":[0]}]";
    let json = document(round, BARE, "");
    assert!(try_parse_glb(&glb_file(&json, &corners()), 100).is_none());
    let wrong = "{\"primitives\":[{\"attributes\":{\"POSITION\":0},\"indices\":1}]}";
    let json = document("\"scenes\":[{\"nodes\":[0]}],\"nodes\":[{\"mesh\":0}]", wrong, "");
    assert!(try_parse_glb(&glb_file(&json, &corners()), 9).is_none());
}

#[test]
fn the_first_base_color_is_the_texture() {
    let mut picture: Vec<u8> = vec![];
    let mut encoder = png::Encoder::new(&mut picture, 1, 1);
    encoder.set_color(png::ColorType::Rgb);
    encoder.set_depth(png::BitDepth::Eight);
    let mut writer = encoder.write_header().unwrap();
    writer.write_image_data(&[5, 6, 7]).unwrap();
    writer.finish().unwrap();
    let mut bin = corners();
    bin.resize(68, 0);
    bin.extend(&picture);
    bin.resize(168, 0);
    let mesh = "{\"primitives\":[{\"attributes\":{\"POSITION\":0},\"material\":0}]}";
    let more = ",\"materials\":[{\"pbrMetallicRoughness\":{\"baseColorTexture\":{\"index\":0}}}],\
         \"textures\":[{\"source\":0}],\
         \"images\":[{\"bufferView\":3,\"mimeType\":\"image/png\"}]";
    let json = document("\"scenes\":[{\"nodes\":[0]}],\"nodes\":[{\"mesh\":0}]", mesh, more);
    let model = parse_glb(&glb_file(&json, &bin)).unwrap();
    assert_eq!(model.texture, Some((1, 1, vec![5, 6, 7, 255])));
}

#[test]
fn textures_elsewhere_or_broken_are_none() {
    let views = vec![GlbBufferView { offset: 2, length: 3, stride: None }];
    let inside = |mime: Option<&str>| GlbImage {
        view: Some(0),
        mime: mime.map(|m| m.to_string()),
        uri: false,
    };
    let png = inside(Some("image/png"));
    assert_eq!(read_texture(&png, &views, &None), Some(None));
    assert_eq!(read_texture(&png, &views, &Some(vec![0; 4])), Some(None));
    assert_eq!(read_texture(&png, &views, &Some(vec![0; 5])), Some(None));
    assert_eq!(read_texture(&inside(Some("jpg")), &views, &Some(vec![0; 5])), Some(None));
    assert_eq!(read_texture(&inside(None), &views, &Some(vec![0; 5])), None);
    let far = GlbImage { view: None, mime: None, uri: true };
    assert_eq!(read_texture(&far, &views, &None), Some(None));
    let nowhere = GlbImage { view: None, mime: None, uri: false };
    assert_eq!(read_texture(&nowhere, &views, &None), None);
    let endless = vec![GlbBufferView { offset: usize::MAX, length: 3, stride: None }];
    assert_eq!(read_texture(&png, &endless, &Some(vec![])), None);
}

#[test]
fn the_default_scene_is_shown_or_the_first() {
    let mut outline = GlbOutline {
        default_scene: None,
        scenes: vec![vec![4], vec![5]],
        nodes: vec![],
        blob: None,
    };
    assert_eq!(outline.roots(), Some(&vec![4]));
    outline.default_scene = Some(1);
    assert_eq!(outline.roots(), Some(&vec![5]));
    outline.scenes.clear();
    outline.default_scene = None;
    assert_eq!(outline.roots(), None);
}

#[test]
fn walks_end_within_their_limit_or_not_at_all() {
    let node = |children: Vec<usize>| GlbNode { children, mesh: None };
    let nodes = vec![node(vec![1, 1]), node(vec![])];
    let ways = walk(&nodes, &vec![0], 3).unwrap();
    assert_eq!(ways, [vec![0], vec![0, 1], vec![0, 1]]);
    assert_eq!(walk(&nodes, &vec![0], 1000), Some(ways));
    assert_eq!(walk(&nodes, &vec![0], 2), None);
    assert_eq!(walk(&nodes, &vec![], 0), Some(vec![]));
}

#[test]
fn accessors_are_read_as_what_they_are() {
    let views = vec![GlbBufferView { offset: 0, length: 36, stride: None }];
    let vectors = GlbAccessor {
        count: 3,
        size: 12,
        kind: KIND_F32,
        offset: 0,
        view: Some(0),
        sparse: None,
    };
    let none = GlbAccessor { count: 0, ..vectors };
    let words = GlbAccessor { size: 2, kind: KIND_U16, ..vectors };
    let lost = GlbAccessor { offset: usize::MAX, ..vectors };
    let all = vec![vectors, none, words, lost];
    assert!(readable(&all, &views, Some(0), Reading::Vectors));
    assert!(!readable(&all, &views, Some(0), Reading::Indices));
    assert!(!readable(&all, &views, Some(1), Reading::Vectors));
    assert!(readable(&all, &views, Some(2), Reading::Indices));
    assert!(!readable(&all, &views, Some(2), Reading::Coordinates));
    assert!(!readable(&all, &views, Some(3), Reading::Vectors));
    assert!(!readable(&all, &views, Some(4), Reading::Vectors));
    assert!(readable(&all, &views, None, Reading::Vectors));
    let tight = vec![GlbBufferView { offset: 0, length: 36, stride: Some(8) }];
    assert!(!readable(&all, &tight, Some(0), Reading::Vectors));
}

#[test]
fn primitives_are_appended_with_their_own_corners() {
    let point = |n: u32| Bits3 { x: n, y: n, z: n };
    let bare = GlbAttributes { normals: None, uvs: None, indices: None };
    let mut model = GlbModel::empty();
    assert!(model.append(&vec![7], &vec![point(1), point(2)], &bare));
    let full = GlbAttributes {
        normals: Some(vec![point(8)]),
        uvs: Some(vec![]),
        indices: Some(vec![0, 0, 5]),
    };
    assert!(model.append(&vec![7, 8], &vec![point(3)], &full));
    assert_eq!(model.indices, [0, 1, 2, 2, 7]);
    assert_eq!(model.vertices[2].nrm, point(8));
    assert_eq!(model.vertices[2].uv, Bits2 { x: 0, y: 0 });
    let short = GlbAttributes { normals: Some(vec![]), uvs: None, indices: None };
    assert!(!model.append(&vec![], &vec![point(3)], &short));
    let high = GlbAttributes { normals: None, uvs: None, indices: Some(vec![u32::MAX]) };
    assert!(!model.append(&vec![], &vec![point(3)], &high));
    assert_eq!(model.vertices.len(), 3);
    let none: Vec<GlbImage> = vec![];
    assert!(model.take_texture(None, &none, &vec![], &None));
    assert!(!model.take_texture(Some(0), &none, &vec![], &None));
}

#[test]
fn models_are_read_back_from_their_blob() {
    let vertex = |n: u32| ModelVertex {
        pos: Bits3 { x: n, y: n + 1, z: n + 2 },
        nrm: Bits3 { x: n + 3, y: n + 4, z: n + 5 },
        uv: Bits2 { x: n + 6, y: n + 7 },
    };
    let data = ModelData {
        vertices: vec![vertex(0), vertex(100)],
        indices: vec![0, 1, 0],
        texture: Some((1, 2, vec![9; 8])),
    };
    let blob = encode(&data);
    assert_eq!(blob.len(), 16 + 64 + 12 + 8);
    assert_eq!(&blob[..16], [2, 0, 0, 0, 3, 0, 0, 0, 1, 0, 0, 0, 2, 0, 0, 0]);
    assert_eq!(&blob[16..24], [0, 0, 0, 0, 1, 0, 0, 0]);
    let back = decode(&blob).unwrap();
    assert_eq!(back.vertices, data.vertices);
    assert_eq!(back.indices, data.indices);
    assert_eq!(back.texture, data.texture);
    assert!(decode(&blob[..blob.len() - 1]).is_none());
    assert!(decode(&blob[..15]).is_none());
    let plain = ModelData { vertices: vec![], indices: vec![], texture: None };
    assert!(decode(&encode(&plain)).unwrap().texture.is_none());
}

#[test]
fn sparse_positions_and_strided_normals_are_read() {
    let mut bin: Vec<u8> = vec![];
    for f in [7.0f32, 8.0, 9.0] {
        bin.extend(f.to_le_bytes());
    }
    bin.extend([1u8, 0, 0, 0]);
    for f in [1.0f32, 0.0, 0.0, -1.0, 0.0, 0.0, 1.0, -1.0, 0.0, 1.0, 0.0, -1.0] {
        bin.extend(f.to_le_bytes());
    }
    let json = "{\"asset\":{\"version\":\"2.0\"},\"buffers\":[{\"byteLength\":64}],\
         \"bufferViews\":[{\"buffer\":0,\"byteLength\":12},\
         {\"buffer\":0,\"byteOffset\":12,\"byteLength\":1},\
         {\"buffer\":0,\"byteOffset\":16,\"byteLength\":48,\"byteStride\":16}],\
         \"accessors\":[{\"componentType\":5126,\"count\":3,\"type\":\"VEC3\",\
         \"min\":[0,0,0],\"max\":[7,8,9],\"sparse\":{\"count\":1,\
         \"indices\":{\"bufferView\":1,\"componentType\":5121},\
         \"values\":{\"bufferView\":0}}},\
         {\"bufferView\":2,\"componentType\":5126,\"count\":3,\"type\":\"VEC3\"}],\
         \"scene\":0,\"scenes\":[{\"nodes\":[0]}],\"nodes\":[{\"mesh\":0}],\
         \"meshes\":[{\"primitives\":[{\"attributes\":{\"POSITION\":0,\"NORMAL\":1}}]}]}";
    let model = try_parse_glb(&glb_file(json, &bin), 9).unwrap().unwrap();
    let bits = |x: f32, y: f32, z: f32| Bits3 { x: x.to_bits(), y: y.to_bits(), z: z.to_bits() };
    let positions: Vec<Bits3> = model.vertices.iter().map(|v| v.pos).collect();
    assert_eq!(positions, [bits(0.0, 0.0, 0.0), bits(7.0, 8.0, 9.0), bits(0.0, 0.0, 0.0)]);
    let normals: Vec<Bits3> = model.vertices.iter().map(|v| v.nrm).collect();
    assert_eq!(normals, [bits(1.0, 0.0, 0.0), bits(0.0, 0.0, 1.0), bits(0.0, 1.0, 0.0)]);
    assert_eq!(model.indices, [0, 1, 2]);
}

#[test]
fn files_that_name_accessors_that_are_not_there_give_no_answer() {
    let json = "{\"asset\":{\"version\":\"2.0\"},\
         \"meshes\":[{\"primitives\":[{\"attributes\":{\"POSITION\":0}}]}]}";
    for file in [json.as_bytes().to_vec(), glb_file(json, &[1, 2, 3, 4])] {
        assert!(!can_open(&file));
        assert!(try_parse_glb(&file, 9).is_none());
    }
    let mut short = glb_file("{}", &[]);
    short[8] = 11;
    short[9] = 0;
    assert!(!can_open(&short));
    let json = document("\"scenes\":[{\"nodes\":[0]}],\"nodes\":[{\"mesh\":0}]", BARE, "");
    assert!(can_open(&glb_file(&json, &corners())));
    // Any other accessor that is not there is refused.
    let lost = "{\"primitives\":[{\"attributes\":{\"POSITION\":0,\"NORMAL\":7}}]}";
    let json = document("\"scenes\":[{\"nodes\":[0]}],\"nodes\":[{\"mesh\":0}]", lost, "");
    assert!(try_parse_glb(&glb_file(&json, &corners()), 9).unwrap().is_err());
    assert!(can_open(b"nothing"));
}
