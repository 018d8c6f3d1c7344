//! Binary glTF files: which primitives a file draws, in which order, and how they
//! become the vertices, triangles and texture of one model.
use crate::bytes::{copy_bytes, read_word};
#[allow(unused_imports)]
use crate::bytes::word_at;
use crate::imaging::{try_decode_jpeg_rgba, try_decode_png_rgba};
#[allow(unused_imports)]
use crate::imaging::{jpeg_image, jpeg_whole, png_image, png_whole};
use crate::model::{Bits2, Bits3, ModelVertex};
use crate::text::{chars_of, contains};
#[allow(unused_imports)]
use crate::text::occurs;
use gltf::buffer::Source;
use gltf::json::validation::Checked;
use gltf::{Gltf, Semantic};
use vstd::prelude::*;

verus! {

/// A node: its children, and the mesh that it shows.
pub struct GlbNode {
    pub children: Vec<usize>,
    pub mesh: Option<usize>,
}

/// What hangs together in a file: the scenes with their root nodes, the nodes, and
/// the bytes that come with the file.
pub struct GlbOutline {
    pub default_scene: Option<usize>,
    pub scenes: Vec<Vec<usize>>,
    pub nodes: Vec<GlbNode>,
    pub blob: Option<Vec<u8>>,
}

#[verifier::ext_equal]
pub struct NodeView {
    pub children: Seq<usize>,
    pub mesh: Option<usize>,
}

#[verifier::ext_equal]
pub struct OutlineView {
    pub default_scene: Option<usize>,
    pub scenes: Seq<Seq<usize>>,
    pub nodes: Seq<NodeView>,
    pub blob: Option<Seq<u8>>,
}

impl View for GlbNode {
    type V = NodeView;

    open spec fn view(&self) -> NodeView {
        NodeView { children: self.children@, mesh: self.mesh }
    }
}

/// The nodes, each by its view.
pub open spec fn node_views(nodes: Seq<GlbNode>) -> Seq<NodeView> {
    nodes.map_values(|n: GlbNode| n@)
}

/// The lists, each by its view.
pub open spec fn list_views<T>(lists: Seq<Vec<T>>) -> Seq<Seq<T>> {
    lists.map_values(|l: Vec<T>| l@)
}

/// The bytes, if there are any.
pub open spec fn blob_view(blob: Option<Vec<u8>>) -> Option<Seq<u8>> {
    match blob {
        Some(b) => Some(b@),
        None => None,
    }
}

impl View for GlbOutline {
    type V = OutlineView;

    open spec fn view(&self) -> OutlineView {
        OutlineView {
            default_scene: self.default_scene,
            scenes: list_views(self.scenes@),
            nodes: node_views(self.nodes@),
            blob: blob_view(self.blob),
        }
    }
}

/// A primitive of a mesh: its mode as the number that graphics interfaces give it,
/// the accessors of its attributes, and the image of its base color.
#[derive(Copy, Clone, PartialEq, Eq, Debug, Structural)]
pub struct GlbPart {
    pub mode: u32,
    pub positions: Option<usize>,
    pub normals: Option<usize>,
    pub uvs: Option<usize>,
    pub indices: Option<usize>,
    pub image: Option<usize>,
}

/// A part of a buffer.
#[derive(Copy, Clone, PartialEq, Eq, Debug, Structural)]
pub struct GlbBufferView {
    pub offset: usize,
    pub length: usize,
    pub stride: Option<usize>,
}

/// The values of an accessor that differ from its base.
#[derive(Copy, Clone, PartialEq, Eq, Debug, Structural)]
pub struct GlbSparse {
    pub count: usize,
    pub index_size: usize,
    pub index_offset: usize,
    pub index_view: usize,
    pub value_offset: usize,
    pub value_view: usize,
}

/// An accessor: how many items it has, the bytes of one, the number that graphics
/// interfaces give to its component type, and where the items are.
#[derive(Copy, Clone, PartialEq, Eq, Debug, Structural)]
pub struct GlbAccessor {
    pub count: usize,
    pub size: usize,
    pub kind: u32,
    pub offset: usize,
    pub view: Option<usize>,
    pub sparse: Option<GlbSparse>,
}

/// An image: where its bytes are, of what kind they are, and whether they are to be
/// had elsewhere.
pub struct GlbImage {
    pub view: Option<usize>,
    pub mime: Option<String>,
    pub uri: bool,
}

#[verifier::ext_equal]
pub struct ImageView {
    pub view: Option<usize>,
    pub mime: Option<Seq<char>>,
    pub uri: bool,
}

impl View for GlbImage {
    type V = ImageView;

    open spec fn view(&self) -> ImageView {
        ImageView {
            view: self.view,
            mime: match self.mime {
                Some(m) => Some(m@),
                None => None,
            },
            uri: self.uri,
        }
    }
}

/// The images, each by its view.
pub open spec fn image_views(images: Seq<GlbImage>) -> Seq<ImageView> {
    images.map_values(|i: GlbImage| i@)
}

/// The attributes of a primitive beside its positions, where it has them.
pub struct GlbAttributes {
    pub normals: Option<Vec<Bits3>>,
    pub uvs: Option<Vec<Bits2>>,
    pub indices: Option<Vec<u32>>,
}

#[verifier::ext_equal]
pub struct AttributesView {
    pub normals: Option<Seq<Bits3>>,
    pub uvs: Option<Seq<Bits2>>,
    pub indices: Option<Seq<u32>>,
}

/// A list by its view, if there is one.
pub open spec fn option_view<T>(list: Option<Vec<T>>) -> Option<Seq<T>> {
    match list {
        Some(l) => Some(l@),
        None => None,
    }
}

impl View for GlbAttributes {
    type V = AttributesView;

    open spec fn view(&self) -> AttributesView {
        AttributesView {
            normals: option_view(self.normals),
            uvs: option_view(self.uvs),
            indices: option_view(self.indices),
        }
    }
}

/// What `gltf::Gltf::from_slice` finds in a file, where a size may be up to `largest`:
/// its scenes and nodes, and its bytes.
pub uninterp spec fn glb_opened(file: Seq<u8>, largest: nat) -> Result<OutlineView, Seq<char>>;

/// What `gltf::Gltf::from_slice` finds in a file here.
pub open spec fn glb_outline(file: Seq<u8>) -> Result<OutlineView, Seq<char>> {
    glb_opened(file, usize::MAX as nat)
}

/// What a file that is not validated names: of each primitive of each mesh the accessor
/// of its positions, and how many accessors there are. None where it cannot be read.
pub uninterp spec fn glb_named(file: Seq<u8>, largest: nat) -> Option<
    (Seq<Seq<Option<usize>>>, nat),
>;

/// The primitives of each mesh of a file, as `gltf::Document::meshes` visits them.
pub uninterp spec fn glb_parts(file: Seq<u8>) -> Seq<Seq<GlbPart>>;

/// The accessors of a file, as `gltf::Document::accessors` visits them.
pub uninterp spec fn glb_accessors(file: Seq<u8>) -> Seq<GlbAccessor>;

/// The parts of buffers that a file names, as `gltf::Document::views` visits them.
pub uninterp spec fn glb_views(file: Seq<u8>) -> Seq<GlbBufferView>;

/// The images of a file, in the order of its `images`.
pub uninterp spec fn glb_images(file: Seq<u8>) -> Seq<ImageView>;

/// What `gltf::mesh::Reader::read_positions` reads of a primitive of a mesh.
pub uninterp spec fn glb_positions(file: Seq<u8>, mesh: nat, part: nat) -> Option<Seq<Bits3>>;

/// What `gltf::mesh::Reader::read_normals` reads of a primitive of a mesh.
pub uninterp spec fn glb_normals(file: Seq<u8>, mesh: nat, part: nat) -> Option<Seq<Bits3>>;

/// What `gltf::mesh::Reader::read_tex_coords` reads of a primitive of a mesh, for the
/// first set of coordinates, as floats.
pub uninterp spec fn glb_uvs(file: Seq<u8>, mesh: nat, part: nat) -> Option<Seq<Bits2>>;

/// What `gltf::mesh::Reader::read_indices` reads of a primitive of a mesh, as words.
pub uninterp spec fn glb_indices(file: Seq<u8>, mesh: nat, part: nat) -> Option<Seq<u32>>;

/// The view of what opening a file gives.
pub open spec fn outline_view(outcome: Result<GlbOutline, String>) -> Result<
    OutlineView,
    Seq<char>,
> {
    match outcome {
        Ok(o) => Ok(o@),
        Err(e) => Err(e@),
    }
}

/// Whether the length in the header of a binary file is at least that of the header.
pub open spec fn headed(file: Seq<u8>) -> bool {
    file.len() >= 12 && file[0] == 0x67 && file[1] == 0x6c && file[2] == 0x54 && file[3] == 0x46
        ==> word_at(file, 8) >= 12
}

/// Whether every accessor that is named for positions is there.
pub open spec fn names_fit(names: Seq<Seq<Option<usize>>>, count: nat) -> bool {
    forall|m: int, p: int|
        0 <= m < names.len() && 0 <= p < names[m].len() ==> (#[trigger] names[m][p] matches Some(a)
            ==> a < count)
}

/// Whether a file can be opened or is refused: its header gives a length of at least
/// its own, and its primitives name accessors for their positions that are there.
pub open spec fn opens(file: Seq<u8>) -> bool {
    headed(file) && (glb_named(file, usize::MAX as nat) matches Some(named) ==> names_fit(
        named.0,
        named.1,
    ))
}

/// What `read_names` hands out, by its view.
pub open spec fn names_view(names: Option<(Vec<Vec<Option<usize>>>, usize)>) -> Option<
    (Seq<Seq<Option<usize>>>, nat),
> {
    match names {
        Some(n) => Some((list_views(n.0@), n.1 as nat)),
        None => None,
    }
}

/// The accessors that the primitives of a file name for their positions, and how many
/// accessors there are, by `gltf::Gltf::from_slice_without_validation` and
/// `gltf::Document::as_json`: a function of the file and of the largest size that the
/// machine counts to. A binary file whose header gives a length below that of the
/// header itself makes the crate subtract below zero.
#[verifier::external_body]
fn read_names(file: &[u8]) -> (names: Option<(Vec<Vec<Option<usize>>>, usize)>)
    requires
        headed(file@),
    ensures
        names_view(names) == glb_named(file@, usize::MAX as nat),
{
    let glb = Gltf::from_slice_without_validation(file).ok()?;
    let names = glb.as_json().meshes.iter().map(|m| m.primitives.iter().map(|p| {
        p.attributes.get(&Checked::Valid(Semantic::Positions)).map(|a| a.value())
    }).collect()).collect();
    Some((names, glb.as_json().accessors.len()))
}

/// Opens a file by `gltf::Gltf::from_slice`, and hands out its scenes, nodes and
/// bytes, or the text of the error. What is found is a function of the file and of the
/// largest size that the machine counts to: a file with sizes beyond it is refused.
/// While it validates, the crate looks up the accessor of the positions of every
/// primitive, also one that is not there.
#[verifier::external_body]
fn open_glb(file: &[u8]) -> (outcome: Result<GlbOutline, String>)
    requires
        opens(file@),
    ensures
        outline_view(outcome) == glb_opened(file@, usize::MAX as nat),
{
    let glb = Gltf::from_slice(file).map_err(|e| e.to_string())?;
    let scenes = glb.scenes().map(|s| s.nodes().map(|n| n.index()).collect()).collect();
    let nodes = glb.nodes().map(|n| GlbNode {
        children: n.children().map(|c| c.index()).collect(),
        mesh: n.mesh().map(|m| m.index()),
    }).collect();
    let default_scene = glb.default_scene().map(|s| s.index());
    Ok(GlbOutline { default_scene, scenes, nodes, blob: glb.blob })
}

/// The primitives of the meshes of a file, by `gltf::Document::meshes` and
/// `gltf::Mesh::primitives`: a function of the file alone.
#[verifier::external_body]
fn read_parts(file: &[u8]) -> (parts: Vec<Vec<GlbPart>>)
    requires
        opens(file@),
        glb_outline(file@) is Ok,
    ensures
        list_views(parts@) == glb_parts(file@),
{
    let glb = Gltf::from_slice(file).unwrap();
    glb.meshes().map(|m| m.primitives().map(|p| GlbPart {
        mode: p.mode().as_gl_enum(),
        positions: p.get(&Semantic::Positions).map(|a| a.index()),
        normals: p.get(&Semantic::Normals).map(|a| a.index()),
        uvs: p.get(&Semantic::TexCoords(0)).map(|a| a.index()),
        indices: p.indices().map(|a| a.index()),
        image: p.material().pbr_metallic_roughness().base_color_texture()
            .map(|t| t.texture().source().index()),
    }).collect()).collect()
}

/// The accessors of a file, by `gltf::Document::accessors`: a function of the file
/// alone.
#[verifier::external_body]
fn read_accessors(file: &[u8]) -> (accessors: Vec<GlbAccessor>)
    requires
        opens(file@),
        glb_outline(file@) is Ok,
    ensures
        accessors@ == glb_accessors(file@),
{
    let glb = Gltf::from_slice(file).unwrap();
    glb.accessors().map(|a| GlbAccessor {
        count: a.count(),
        size: a.size(),
        kind: a.data_type().as_gl_enum(),
        offset: a.offset(),
        view: a.view().map(|v| v.index()),
        sparse: a.sparse().map(|s| GlbSparse {
            count: s.count(), index_size: s.indices().index_type().size(),
            index_offset: s.indices().offset(), index_view: s.indices().view().index(),
            value_offset: s.values().offset(), value_view: s.values().view().index(),
        }),
    }).collect()
}

/// The parts of buffers that a file names, by `gltf::Document::views`: a function of
/// the file alone.
#[verifier::external_body]
fn read_views(file: &[u8]) -> (views: Vec<GlbBufferView>)
    requires
        opens(file@),
        glb_outline(file@) is Ok,
    ensures
        views@ == glb_views(file@),
{
    let glb = Gltf::from_slice(file).unwrap();
    glb.views().map(|v| GlbBufferView {
        offset: v.offset(),
        length: v.length(),
        stride: v.stride(),
    }).collect()
}

/// The images of a file, by `gltf::Document::as_json`: a function of the file alone.
#[verifier::external_body]
fn read_images(file: &[u8]) -> (images: Vec<GlbImage>)
    requires
        opens(file@),
        glb_outline(file@) is Ok,
    ensures
        image_views(images@) == glb_images(file@),
{
    let glb = Gltf::from_slice(file).unwrap();
    glb.as_json().images.iter().map(|i| GlbImage {
        view: i.buffer_view.map(|v| v.value()),
        mime: i.mime_type.as_ref().map(|m| m.0.clone()),
        uri: i.uri.is_some(),
    }).collect()
}

/// Whether `count` items of `size` bytes can be looked for in the part of a buffer:
/// there is one at least, no two overlap, and the ends of the part and of the last
/// item are numbers.
pub open spec fn lies(
    views: Seq<GlbBufferView>,
    view: usize,
    offset: usize,
    count: usize,
    size: usize,
) -> bool {
    let v = views[view as int];
    let stride = match v.stride {
        Some(s) => s,
        None => size,
    };
    &&& view < views.len()
    &&& v.offset + v.length <= usize::MAX
    &&& count >= 1
    &&& stride >= size
    &&& offset + stride * (count - 1) + size <= usize::MAX
}

/// Whether an accessor can be read as items of `size` bytes. That its own items are of
/// that size, and lie no closer together, the crate asserts in builds
/// with debug assertions alone; it is asked for in every build.
pub open spec fn reads(views: Seq<GlbBufferView>, a: GlbAccessor, size: usize) -> bool {
    let base = match a.view {
        Some(v) => lies(views, v, a.offset, a.count, size),
        None => true,
    };
    match a.sparse {
        None => base && a.size == size,
        Some(s) => {
            &&& base
            &&& a.count <= u32::MAX
            &&& lies(views, s.index_view, s.index_offset, s.count, s.index_size)
            &&& lies(views, s.value_view, s.value_offset, s.count, size)
        },
    }
}

/// The component type of a byte.
pub const KIND_U8: u32 = 5121;

/// The component type of two bytes.
pub const KIND_U16: u32 = 5123;

/// The component type of a word.
pub const KIND_U32: u32 = 5125;

/// The component type of a float.
pub const KIND_F32: u32 = 5126;

/// The mode of primitives whose corners come by threes.
pub const MODE_TRIANGLES: u32 = 4;

/// Whether an accessor can be read as indices.
pub open spec fn reads_indices(views: Seq<GlbBufferView>, a: GlbAccessor) -> bool {
    ||| a.kind == KIND_U8 && reads(views, a, 1)
    ||| a.kind == KIND_U16 && reads(views, a, 2)
    ||| a.kind == KIND_U32 && reads(views, a, 4)
}

/// Whether an accessor can be read as texture coordinates.
pub open spec fn reads_uvs(views: Seq<GlbBufferView>, a: GlbAccessor) -> bool {
    ||| a.kind == KIND_U8 && reads(views, a, 2)
    ||| a.kind == KIND_U16 && reads(views, a, 4)
    ||| a.kind == KIND_F32 && reads(views, a, 8)
}

/// What an accessor is read as.
#[derive(Copy, Clone, PartialEq, Eq, Debug, Structural)]
pub enum Reading {
    Vectors,
    Coordinates,
    Indices,
}

/// Whether the accessor of that number, if there is one, can be read so.
pub open spec fn can_read(
    accessors: Seq<GlbAccessor>,
    views: Seq<GlbBufferView>,
    accessor: Option<usize>,
    reading: Reading,
) -> bool {
    match accessor {
        None => true,
        Some(a) => a < accessors.len() && match reading {
            Reading::Vectors => reads(views, accessors[a as int], 12),
            Reading::Coordinates => reads_uvs(views, accessors[a as int]),
            Reading::Indices => reads_indices(views, accessors[a as int]),
        },
    }
}

/// Whether the file has that primitive.
pub open spec fn has_part(parts: Seq<Seq<GlbPart>>, mesh: int, part: int) -> bool {
    0 <= mesh < parts.len() && 0 <= part < parts[mesh].len()
}

/// Whether the file has that primitive, and its positions can be read.
pub open spec fn positions_read(file: Seq<u8>, mesh: int, part: int) -> bool {
    has_part(glb_parts(file), mesh, part) && can_read(
        glb_accessors(file),
        glb_views(file),
        glb_parts(file)[mesh][part].positions,
        Reading::Vectors,
    )
}

/// Whether the file has that primitive, and its normals can be read.
pub open spec fn normals_read(file: Seq<u8>, mesh: int, part: int) -> bool {
    has_part(glb_parts(file), mesh, part) && can_read(
        glb_accessors(file),
        glb_views(file),
        glb_parts(file)[mesh][part].normals,
        Reading::Vectors,
    )
}

/// Whether the file has that primitive, and its texture coordinates can be read.
pub open spec fn uvs_read(file: Seq<u8>, mesh: int, part: int) -> bool {
    has_part(glb_parts(file), mesh, part) && can_read(
        glb_accessors(file),
        glb_views(file),
        glb_parts(file)[mesh][part].uvs,
        Reading::Coordinates,
    )
}

/// Whether the file has that primitive, and its indices can be read.
pub open spec fn indices_read(file: Seq<u8>, mesh: int, part: int) -> bool {
    has_part(glb_parts(file), mesh, part) && can_read(
        glb_accessors(file),
        glb_views(file),
        glb_parts(file)[mesh][part].indices,
        Reading::Indices,
    )
}

/// The positions of a primitive, by `gltf::mesh::Reader::read_positions` over the
/// bytes that come with the file: a function of the file and of which primitive it
/// is. The crate panics where the accessor is not one that `reads` allows.
#[verifier::external_body]
fn read_positions(file: &[u8], mesh: usize, part: usize) -> (positions: Option<Vec<Bits3>>)
    requires
        opens(file@),
        glb_outline(file@) is Ok,
        positions_read(file@, mesh as int, part as int),
    ensures
        option_view(positions) == glb_positions(file@, mesh as nat, part as nat),
{
    let glb = Gltf::from_slice(file).unwrap();
    let blob = glb.blob.as_deref();
    let primitive = glb.meshes().nth(mesh).unwrap().primitives().nth(part).unwrap();
    let reader = primitive.reader(|b| match b.source() {
        Source::Bin => blob,
        Source::Uri(_) => None,
    });
    reader.read_positions().map(|r| r.map(|v| Bits3 {
        x: v[0].to_bits(),
        y: v[1].to_bits(),
        z: v[2].to_bits(),
    }).collect())
}

/// The normals of a primitive, by `gltf::mesh::Reader::read_normals` over the
/// bytes that come with the file: a function of the file and of which primitive it
/// is. The crate panics where the accessor is not one that `reads` allows.
#[verifier::external_body]
fn read_normals(file: &[u8], mesh: usize, part: usize) -> (normals: Option<Vec<Bits3>>)
    requires
        opens(file@),
        glb_outline(file@) is Ok,
        normals_read(file@, mesh as int, part as int),
    ensures
        option_view(normals) == glb_normals(file@, mesh as nat, part as nat),
{
    let glb = Gltf::from_slice(file).unwrap();
    let blob = glb.blob.as_deref();
    let primitive = glb.meshes().nth(mesh).unwrap().primitives().nth(part).unwrap();
    let reader = primitive.reader(|b| match b.source() {
        Source::Bin => blob,
        Source::Uri(_) => None,
    });
    reader.read_normals().map(|r| r.map(|v| Bits3 {
        x: v[0].to_bits(),
        y: v[1].to_bits(),
        z: v[2].to_bits(),
    }).collect())
}

/// The first texture coordinates of a primitive, by `gltf::mesh::Reader::read_tex_coords` over the
/// bytes that come with the file: a function of the file and of which primitive it
/// is. The crate panics where the accessor is not one that `reads_uvs` allows.
#[verifier::external_body]
fn read_uvs(file: &[u8], mesh: usize, part: usize) -> (uvs: Option<Vec<Bits2>>)
    requires
        opens(file@),
        glb_outline(file@) is Ok,
        uvs_read(file@, mesh as int, part as int),
    ensures
        option_view(uvs) == glb_uvs(file@, mesh as nat, part as nat),
{
    let glb = Gltf::from_slice(file).unwrap();
    let blob = glb.blob.as_deref();
    let primitive = glb.meshes().nth(mesh).unwrap().primitives().nth(part).unwrap();
    let reader = primitive.reader(|b| match b.source() {
        Source::Bin => blob,
        Source::Uri(_) => None,
    });
    reader.read_tex_coords(0).map(|r| r.into_f32().map(|t| Bits2 {
        x: t[0].to_bits(),
        y: t[1].to_bits(),
    }).collect())
}

/// The indices of a primitive, by `gltf::mesh::Reader::read_indices` over the
/// bytes that come with the file: a function of the file and of which primitive it
/// is. The crate panics where the accessor is not one that `reads_indices` allows.
#[verifier::external_body]
fn read_indices(file: &[u8], mesh: usize, part: usize) -> (indices: Option<Vec<u32>>)
    requires
        opens(file@),
        glb_outline(file@) is Ok,
        indices_read(file@, mesh as int, part as int),
    ensures
        option_view(indices) == glb_indices(file@, mesh as nat, part as nat),
{
    let glb = Gltf::from_slice(file).unwrap();
    let blob = glb.blob.as_deref();
    let primitive = glb.meshes().nth(mesh).unwrap().primitives().nth(part).unwrap();
    let reader = primitive.reader(|b| match b.source() {
        Source::Bin => blob,
        Source::Uri(_) => None,
    });
    reader.read_indices().map(|r| r.into_u32().collect())
}

fn lies_in(
    views: &Vec<GlbBufferView>,
    view: usize,
    offset: usize,
    count: usize,
    size: usize,
) -> (yes: bool)
    ensures
        yes == lies(views@, view, offset, count, size),
{
    if view >= views.len() || count < 1 {
        return false;
    }
    let v: GlbBufferView = views[view];
    let stride: usize = match v.stride {
        Some(s) => s,
        None => size,
    };
    if stride < size || v.length > usize::MAX - v.offset {
        return false;
    }
    assert(stride * (count - 1) <= 0xffff_ffff_ffff_ffff * 0xffff_ffff_ffff_ffff)
        by (nonlinear_arith)
        requires
            0 <= stride <= 0xffff_ffff_ffff_ffff,
            1 <= count <= 0xffff_ffff_ffff_ffff,
    ;
    let span: u128 = stride as u128 * (count - 1) as u128;
    offset as u128 + span + size as u128 <= usize::MAX as u128
}

fn reads_as(views: &Vec<GlbBufferView>, a: &GlbAccessor, size: usize) -> (yes: bool)
    ensures
        yes == reads(views@, *a, size),
{
    let base: bool = match a.view {
        Some(v) => lies_in(views, v, a.offset, a.count, size),
        None => true,
    };
    match a.sparse {
        None => base && a.size == size,
        Some(s) => base && a.count as u64 <= u32::MAX as u64 && lies_in(
            views,
            s.index_view,
            s.index_offset,
            s.count,
            s.index_size,
        ) && lies_in(views, s.value_view, s.value_offset, s.count, size),
    }
}

/// Whether the accessor of that number, if there is one, can be read so.
pub fn readable(
    accessors: &Vec<GlbAccessor>,
    views: &Vec<GlbBufferView>,
    accessor: Option<usize>,
    reading: Reading,
) -> (yes: bool)
    ensures
        yes == can_read(accessors@, views@, accessor, reading),
{
    match accessor {
        None => true,
        Some(i) => {
            if i >= accessors.len() {
                return false;
            }
            let a: GlbAccessor = accessors[i];
            match reading {
                Reading::Vectors => reads_as(views, &a, 12),
                Reading::Coordinates => {
                    (a.kind == KIND_U8 && reads_as(views, &a, 2)) || (a.kind == KIND_U16
                        && reads_as(views, &a, 4)) || (a.kind == KIND_F32 && reads_as(
                        views,
                        &a,
                        8,
                    ))
                },
                Reading::Indices => {
                    (a.kind == KIND_U8 && reads_as(views, &a, 1)) || (a.kind == KIND_U16
                        && reads_as(views, &a, 2)) || (a.kind == KIND_U32 && reads_as(
                        views,
                        &a,
                        4,
                    ))
                },
            }
        },
    }
}

/// The root nodes of the scene that is shown: of the default scene, or of the first.
pub open spec fn shown_roots(outline: OutlineView) -> Option<Seq<usize>> {
    match outline.default_scene {
        Some(s) if s < outline.scenes.len() => Some(outline.scenes[s as int]),
        _ => if outline.scenes.len() > 0 {
            Some(outline.scenes[0])
        } else {
            None
        },
    }
}

impl GlbOutline {
    /// The root nodes of the scene that is shown: of the default scene, or of the
    /// first.
    pub fn roots(&self) -> (roots: Option<&Vec<usize>>)
        ensures
            match shown_roots(self@) {
                Some(r) => roots matches Some(v) && v@ == r,
                None => roots is None,
            },
    {
        let first: Option<&Vec<usize>> = if self.scenes.len() > 0 {
            Some(&self.scenes[0])
        } else {
            None
        };
        match self.default_scene {
            Some(s) => if s < self.scenes.len() {
                Some(&self.scenes[s])
            } else {
                first
            },
            None => first,
        }
    }
}

/// The ways to the children of the node at the end of a way.
pub open spec fn ways_on(way: Seq<usize>, children: Seq<usize>) -> Seq<Seq<usize>> {
    Seq::new(children.len(), |i: int| way.push(children[i]))
}

/// The ways from the roots to all nodes that are reached from those on the stack, the
/// last first and each before its children, if there are no more than `limit`.
pub open spec fn walked(nodes: Seq<NodeView>, stack: Seq<Seq<usize>>, limit: nat) -> Option<
    Seq<Seq<usize>>,
>
    decreases limit,
{
    if stack.len() == 0 {
        Some(Seq::empty())
    } else if limit == 0 || stack.last().len() == 0 || stack.last().last() >= nodes.len() {
        None
    } else {
        let way = stack.last();
        let next = stack.drop_last() + ways_on(way, nodes[way.last() as int].children);
        match walked(nodes, next, (limit - 1) as nat) {
            Some(rest) => Some(seq![way] + rest),
            None => None,
        }
    }
}

/// The ways that lead from nowhere to the roots.
pub open spec fn ways_in(roots: Seq<usize>) -> Seq<Seq<usize>> {
    ways_on(Seq::empty(), roots)
}

fn same_way(way: &Vec<usize>) -> (out: Vec<usize>)
    ensures
        out@ == way@,
{
    let mut out: Vec<usize> = Vec::new();
    let mut i: usize = 0;
    while i < way.len()
        invariant
            i <= way@.len(),
            out@ == way@.take(i as int),
        decreases way@.len() - i,
    {
        out.push(way[i]);
        i = i + 1;
        assert(way@.take(i as int) =~= way@.take(i - 1).push(way@[i - 1]));
    }
    assert(way@.take(i as int) =~= way@);
    out
}

fn longer(way: &Vec<usize>, node: usize) -> (out: Vec<usize>)
    ensures
        out@ == way@.push(node),
{
    let mut out: Vec<usize> = same_way(way);
    out.push(node);
    out
}

fn push_ways(stack: &mut Vec<Vec<usize>>, way: &Vec<usize>, children: &Vec<usize>)
    ensures
        list_views(final(stack)@) == list_views(old(stack)@) + ways_on(way@, children@),
{
    let ghost before = list_views(stack@);
    let ghost on = ways_on(way@, children@);
    let mut i: usize = 0;
    assert(on.take(0) =~= Seq::empty());
    assert(before + on.take(0) =~= before);
    while i < children.len()
        invariant
            i <= children@.len(),
            on == ways_on(way@, children@),
            list_views(stack@) == before + on.take(i as int),
        decreases children@.len() - i,
    {
        let ghost sofar = list_views(stack@);
        let next: Vec<usize> = longer(way, children[i]);
        let ghost added = next@;
        stack.push(next);
        i = i + 1;
        assert(list_views(stack@) =~= sofar.push(added));
        assert(before + on.take(i as int) =~= (before + on.take(i - 1)).push(on[i - 1]));
    }
    assert(on.take(i as int) =~= on);
}

/// `done` and then `rest`, if there is a rest.
pub open spec fn after(done: Seq<Seq<usize>>, rest: Option<Seq<Seq<usize>>>) -> Option<
    Seq<Seq<usize>>,
> {
    match rest {
        Some(r) => Some(done + r),
        None => None,
    }
}

/// The ways from the roots to all nodes that are reached from them, the last first
/// and each before its children, if there are no more than `limit`.
pub fn walk(nodes: &Vec<GlbNode>, roots: &Vec<usize>, limit: u64) -> (ways: Option<Vec<Vec<usize>>>)
    ensures
        match walked(node_views(nodes@), ways_in(roots@), limit as nat) {
            Some(w) => ways matches Some(v) && list_views(v@) == w,
            None => ways is None,
        },
{
    let ghost ns = node_views(nodes@);
    let nowhere: Vec<usize> = Vec::new();
    let mut stack: Vec<Vec<usize>> = Vec::new();
    push_ways(&mut stack, &nowhere, roots);
    let mut done: Vec<Vec<usize>> = Vec::new();
    let mut left: u64 = limit;
    let ghost all = walked(ns, ways_in(roots@), limit as nat);
    assert(nowhere@ =~= Seq::<usize>::empty());
    assert(list_views(stack@) =~= ways_in(roots@));
    proof {
        if all is Some {
            assert(list_views(done@) + all->0 =~= all->0);
        }
    }
    while stack.len() > 0
        invariant
            ns == node_views(nodes@),
            all == after(list_views(done@), walked(ns, list_views(stack@), left as nat)),
            all == walked(ns, ways_in(roots@), limit as nat),
        decreases left,
    {
        let ghost before = list_views(stack@);
        let ghost sofar = list_views(done@);
        let way: Vec<usize> = stack.pop().unwrap();
        assert(before.last() == way@);
        assert(list_views(stack@) =~= before.drop_last());
        if left == 0 || way.len() == 0 {
            return None;
        }
        let at: usize = way[way.len() - 1];
        if at >= nodes.len() {
            return None;
        }
        push_ways(&mut stack, &way, &nodes[at].children);
        assert(ns[at as int].children == nodes@[at as int].children@);
        left = left - 1;
        let ghost went = way@;
        done.push(way);
        proof {
            let rest = walked(ns, list_views(stack@), left as nat);
            assert(list_views(done@) =~= sofar.push(went));
            if rest is Some {
                assert(sofar + (seq![went] + rest->0) =~= list_views(done@) + rest->0);
            }
        }
    }
    assert(list_views(stack@) =~= Seq::<Seq<usize>>::empty());
    assert(list_views(done@) + Seq::<Seq<usize>>::empty() =~= list_views(done@));
    Some(done)
}

/// The vertices that came by one way: how many, from which on.
pub struct GlbPiece {
    pub way: Vec<usize>,
    pub from: u32,
    pub count: usize,
}

/// A model whose vertices are still where their nodes put them: those of a piece are
/// to be moved as the nodes on its way say.
pub struct GlbModel {
    pub vertices: Vec<ModelVertex>,
    pub pieces: Vec<GlbPiece>,
    pub indices: Vec<u32>,
    pub texture: Option<(u32, u32, Vec<u8>)>,
}

#[verifier::ext_equal]
pub struct PieceView {
    pub way: Seq<usize>,
    pub from: u32,
    pub count: usize,
}

#[verifier::ext_equal]
pub struct GlbModelView {
    pub vertices: Seq<ModelVertex>,
    pub pieces: Seq<PieceView>,
    pub indices: Seq<u32>,
    pub texture: Option<(u32, u32, Seq<u8>)>,
}

impl View for GlbPiece {
    type V = PieceView;

    open spec fn view(&self) -> PieceView {
        PieceView { way: self.way@, from: self.from, count: self.count }
    }
}

/// The pieces, each by its view.
pub open spec fn piece_views(pieces: Seq<GlbPiece>) -> Seq<PieceView> {
    pieces.map_values(|p: GlbPiece| p@)
}

/// A texture by its view, if there is one.
pub open spec fn texture_view(texture: Option<(u32, u32, Vec<u8>)>) -> Option<(u32, u32, Seq<u8>)> {
    match texture {
        Some(t) => Some((t.0, t.1, t.2@)),
        None => None,
    }
}

impl View for GlbModel {
    type V = GlbModelView;

    open spec fn view(&self) -> GlbModelView {
        GlbModelView {
            vertices: self.vertices@,
            pieces: piece_views(self.pieces@),
            indices: self.indices@,
            texture: texture_view(self.texture),
        }
    }
}

/// The bits of one.
pub const ONE_BITS: u32 = 0x3f80_0000;

/// The `k`-th vertex of a primitive: upright where it has no normals, and at the
/// corner of the texture where it has no coordinates for it.
pub open spec fn part_vertex(positions: Seq<Bits3>, attributes: AttributesView, k: int) -> ModelVertex {
    ModelVertex {
        pos: positions[k],
        nrm: match attributes.normals {
            Some(n) => n[k],
            None => Bits3 { x: 0, y: ONE_BITS, z: 0 },
        },
        uv: match attributes.uvs {
            Some(t) if k < t.len() => t[k],
            _ => Bits2 { x: 0, y: 0 },
        },
    }
}

/// The corners of the triangles of a primitive: those it names, or all vertices in
/// turn.
pub open spec fn corners(positions: Seq<Bits3>, attributes: AttributesView) -> Seq<u32> {
    match attributes.indices {
        Some(i) => i,
        None => Seq::new(positions.len(), |k: int| k as u32),
    }
}

/// Whether the corners of a primitive are numbers when counted from `base`.
pub open spec fn corners_fit(base: nat, corners: Seq<u32>) -> bool {
    forall|k: int| 0 <= k < corners.len() ==> base + #[trigger] corners[k] <= u32::MAX
}

/// The model with a primitive added to it, unless it has too few normals or its
/// vertices cannot be numbered.
pub open spec fn appended(
    model: GlbModelView,
    way: Seq<usize>,
    positions: Seq<Bits3>,
    attributes: AttributesView,
) -> Option<GlbModelView> {
    let base = model.vertices.len();
    let list = corners(positions, attributes);
    if attributes.normals matches Some(n) && n.len() < positions.len() {
        None
    } else if base > u32::MAX || positions.len() > u32::MAX || !corners_fit(base, list) {
        None
    } else {
        Some(
            GlbModelView {
                vertices: model.vertices + Seq::new(
                    positions.len(),
                    |k: int| part_vertex(positions, attributes, k),
                ),
                pieces: model.pieces.push(
                    PieceView { way, from: base as u32, count: positions.len() as usize },
                ),
                indices: model.indices + list.map_values(|i: u32| (base + i) as u32),
                texture: model.texture,
            },
        )
    }
}

impl GlbModel {
    /// A model of nothing.
    pub fn empty() -> (model: Self)
        ensures
            model@ == (GlbModelView {
                vertices: Seq::empty(),
                pieces: Seq::empty(),
                indices: Seq::empty(),
                texture: None,
            }),
    {
        let model = GlbModel {
            vertices: Vec::new(),
            pieces: Vec::new(),
            indices: Vec::new(),
            texture: None,
        };
        assert(piece_views(model.pieces@) =~= Seq::<PieceView>::empty());
        model
    }

    fn add_vertices(&mut self, positions: &Vec<Bits3>, attributes: &GlbAttributes)
        requires
            attributes.normals matches Some(n) ==> n@.len() >= positions@.len(),
        ensures
            final(self)@ == (GlbModelView {
                vertices: old(self)@.vertices + Seq::new(
                    positions@.len(),
                    |k: int| part_vertex(positions@, attributes@, k),
                ),
                ..old(self)@
            }),
    {
        let ghost added = Seq::new(
            positions@.len(),
            |k: int| part_vertex(positions@, attributes@, k),
        );
        let ghost before = self.vertices@;
        let mut k: usize = 0;
        assert(before + added.take(0) =~= before);
        while k < positions.len()
            invariant
                attributes.normals matches Some(n) ==> n@.len() >= positions@.len(),
                k <= positions@.len(),
                added == Seq::new(
                    positions@.len(),
                    |k: int| part_vertex(positions@, attributes@, k),
                ),
                self.vertices@ == before + added.take(k as int),
                self.pieces == old(self).pieces,
                self.indices == old(self).indices,
                self.texture == old(self).texture,
            decreases positions@.len() - k,
        {
            let nrm: Bits3 = match &attributes.normals {
                Some(n) => n[k],
                None => Bits3 { x: 0, y: ONE_BITS, z: 0 },
            };
            let uv: Bits2 = match &attributes.uvs {
                Some(t) => if k < t.len() {
                    t[k]
                } else {
                    Bits2 { x: 0, y: 0 }
                },
                None => Bits2 { x: 0, y: 0 },
            };
            let vertex = ModelVertex { pos: positions[k], nrm, uv };
            assert(vertex == part_vertex(positions@, attributes@, k as int));
            self.vertices.push(vertex);
            k = k + 1;
            assert(before + added.take(k as int) =~= (before + added.take(k - 1)).push(
                added[k - 1],
            ));
        }
        assert(added.take(k as int) =~= added);
    }

    /// Adds a primitive, unless it has too few normals or its vertices cannot be
    /// numbered.
    pub fn append(
        &mut self,
        way: &Vec<usize>,
        positions: &Vec<Bits3>,
        attributes: &GlbAttributes,
    ) -> (added: bool)
        ensures
            match appended(old(self)@, way@, positions@, attributes@) {
                Some(m) => added && final(self)@ == m,
                None => !added && final(self)@ == old(self)@,
            },
    {
        if let Some(n) = &attributes.normals {
            if n.len() < positions.len() {
                return false;
            }
        }
        if self.vertices.len() as u64 > u32::MAX as u64 || positions.len() as u64 > u32::MAX as u64
        {
            return false;
        }
        let base: u32 = self.vertices.len() as u32;
        let list: Vec<u32> = match &attributes.indices {
            Some(i) => copied(i),
            None => counted(positions.len() as u32),
        };
        let ghost named = corners(positions@, attributes@);
        assert(list@ =~= named);
        let mut rebased: Vec<u32> = Vec::new();
        let mut k: usize = 0;
        while k < list.len()
            invariant
                k <= list@.len(),
                rebased@.len() == k,
                forall|j: int| 0 <= j < k ==> base + #[trigger] list@[j] <= u32::MAX,
                forall|j: int| 0 <= j < k ==> rebased@[j] == base + #[trigger] list@[j],
                list@ == corners(positions@, attributes@),
                self@ == old(self)@,
                base == old(self)@.vertices.len(),
            decreases list@.len() - k,
        {
            if list[k] > u32::MAX - base {
                assert(base + list@[k as int] > u32::MAX);
                return false;
            }
            rebased.push(base + list[k]);
            k = k + 1;
        }
        let ghost before = self@;
        self.add_vertices(positions, attributes);
        let ghost pieces = self.pieces@;
        self.pieces.push(GlbPiece { way: same_way(way), from: base, count: positions.len() });
        assert(piece_views(self.pieces@) =~= piece_views(pieces).push(
            PieceView { way: way@, from: base, count: positions@.len() as usize },
        ));
        let ghost indices = self.indices@;
        push_words(&mut self.indices, &rebased);
        assert(rebased@ =~= named.map_values(|i: u32| (base + i) as u32));
        true
    }
}

fn copied(words: &Vec<u32>) -> (out: Vec<u32>)
    ensures
        out@ == words@,
{
    let mut out: Vec<u32> = Vec::new();
    push_words(&mut out, words);
    assert(out@ =~= words@);
    out
}

fn push_words(out: &mut Vec<u32>, words: &Vec<u32>)
    ensures
        final(out)@ == old(out)@ + words@,
{
    let ghost before = out@;
    let mut i: usize = 0;
    assert(before + words@.take(0) =~= before);
    while i < words.len()
        invariant
            i <= words@.len(),
            out@ == before + words@.take(i as int),
        decreases words@.len() - i,
    {
        out.push(words[i]);
        i = i + 1;
        assert(before + words@.take(i as int) =~= (before + words@.take(i - 1)).push(words@[i - 1]));
    }
    assert(words@.take(i as int) =~= words@);
}

fn counted(n: u32) -> (out: Vec<u32>)
    ensures
        out@ == Seq::new(n as nat, |k: int| k as u32),
{
    let mut out: Vec<u32> = Vec::new();
    let mut i: u32 = 0;
    while i < n
        invariant
            i <= n,
            out@ == Seq::new(i as nat, |k: int| k as u32),
        decreases n - i,
    {
        out.push(i);
        i = i + 1;
        assert(out@ =~= Seq::new(i as nat, |k: int| k as u32));
    }
    out
}

/// What a file gives for a texture: that image, or none where it cannot be decoded.
pub open spec fn kept<E>(image: Result<(u32, u32, Seq<u8>), E>) -> Option<(u32, u32, Seq<u8>)> {
    match image {
        Ok(i) => Some(i),
        Err(_) => None,
    }
}

/// The picture in the bytes of an image.
pub open spec fn picture_in(mime: Seq<char>, bytes: Seq<u8>) -> Option<
    Option<(u32, u32, Seq<u8>)>,
> {
    if occurs(mime, "png"@) {
        if png_whole(bytes) {
            Some(kept(png_image(bytes)))
        } else {
            None
        }
    } else {
        if jpeg_whole(bytes) {
            Some(kept(jpeg_image(bytes)))
        } else {
            None
        }
    }
}

/// The texture that an image gives, which is none where its bytes are not those of
/// the file or cannot be decoded. An image of neither bytes nor an address, of bytes
/// of no kind, or whose frame falls short of its size gives no answer.
pub open spec fn texture_of(
    image: ImageView,
    views: Seq<GlbBufferView>,
    blob: Option<Seq<u8>>,
) -> Option<Option<(u32, u32, Seq<u8>)>> {
    match image.view {
        None => if image.uri {
            Some(None)
        } else {
            None
        },
        Some(v) => {
            let part = views[v as int];
            let end = part.offset + part.length;
            match (image.mime, blob) {
                (None, _) => None,
                (Some(mime), _) if v >= views.len() => None,
                (Some(mime), None) => Some(None),
                (Some(mime), Some(b)) => if end > usize::MAX {
                    None
                } else if end > b.len() {
                    Some(None)
                } else {
                    picture_in(mime, b.subrange(part.offset as int, end))
                },
            }
        },
    }
}

/// Whether that is the answer.
pub open spec fn answers(
    texture: Option<Option<(u32, u32, Vec<u8>)>>,
    is: Option<Option<(u32, u32, Seq<u8>)>>,
) -> bool {
    match is {
        None => texture is None,
        Some(t) => texture matches Some(x) && texture_view(x) == t,
    }
}

fn read_picture(mime: &str, bytes: &[u8]) -> (texture: Option<Option<(u32, u32, Vec<u8>)>>)
    ensures
        answers(texture, picture_in(mime@, bytes@)),
{
    let image: Option<Result<(u32, u32, Vec<u8>), String>> = if contains(
        &chars_of(mime),
        &chars_of("png"),
    ) {
        try_decode_png_rgba(bytes)
    } else {
        try_decode_jpeg_rgba(bytes)
    };
    match image {
        None => None,
        Some(Ok(i)) => Some(Some(i)),
        Some(Err(_)) => Some(None),
    }
}

/// The texture that an image gives.
pub fn read_texture(image: &GlbImage, views: &Vec<GlbBufferView>, blob: &Option<Vec<u8>>) -> (texture:
    Option<Option<(u32, u32, Vec<u8>)>>)
    ensures
        answers(texture, texture_of(image@, views@, blob_view(*blob))),
{
    let v: usize = match image.view {
        None => {
            return if image.uri {
                Some(None)
            } else {
                None
            };
        },
        Some(v) => v,
    };
    let mime: &String = match &image.mime {
        None => {
            return None;
        },
        Some(m) => m,
    };
    if v >= views.len() {
        return None;
    }
    let part: GlbBufferView = views[v];
    let bytes: &Vec<u8> = match blob {
        None => {
            return Some(None);
        },
        Some(b) => b,
    };
    if part.length > usize::MAX - part.offset {
        return None;
    }
    if part.offset + part.length > bytes.len() {
        return Some(None);
    }
    let inside: Vec<u8> = copy_bytes(bytes.as_slice(), part.offset, part.length);
    read_picture(mime.as_str(), inside.as_slice())
}

/// The model with the texture of the image of that number, if it has none yet and
/// there is such an image.
pub open spec fn textured(
    model: GlbModelView,
    image: Option<usize>,
    images: Seq<ImageView>,
    views: Seq<GlbBufferView>,
    blob: Option<Seq<u8>>,
) -> Option<GlbModelView> {
    match (model.texture, image) {
        (None, Some(i)) => if i >= images.len() {
            None
        } else {
            match texture_of(images[i as int], views, blob) {
                Some(texture) => Some(GlbModelView { texture, ..model }),
                None => None,
            }
        },
        _ => Some(model),
    }
}

impl GlbModel {
    /// Takes the texture of the image of that number, if there is none yet and there
    /// is such an image.
    pub fn take_texture(
        &mut self,
        image: Option<usize>,
        images: &Vec<GlbImage>,
        views: &Vec<GlbBufferView>,
        blob: &Option<Vec<u8>>,
    ) -> (taken: bool)
        ensures
            match textured(old(self)@, image, image_views(images@), views@, blob_view(*blob)) {
                Some(m) => taken && final(self)@ == m,
                None => !taken && final(self)@ == old(self)@,
            },
    {
        if self.texture.is_some() {
            return true;
        }
        match image {
            None => true,
            Some(i) => {
                if i >= images.len() {
                    return false;
                }
                assert(image_views(images@)[i as int] == images@[i as int]@);
                match read_texture(&images[i], views, blob) {
                    None => false,
                    Some(texture) => {
                        self.texture = texture;
                        true
                    },
                }
            },
        }
    }
}

/// What the crate reads of the attributes of a primitive beside its positions.
pub open spec fn attributes_of(file: Seq<u8>, mesh: nat, part: nat) -> AttributesView {
    AttributesView {
        normals: glb_normals(file, mesh, part),
        uvs: glb_uvs(file, mesh, part),
        indices: glb_indices(file, mesh, part),
    }
}

/// The model with a primitive of a mesh: unchanged where that is no triangles or has
/// no positions, and none where it cannot be read.
pub open spec fn with_part(
    file: Seq<u8>,
    blob: Option<Seq<u8>>,
    model: GlbModelView,
    way: Seq<usize>,
    mesh: nat,
    part: nat,
) -> Option<GlbModelView> {
    let row = glb_parts(file)[mesh as int][part as int];
    if row.mode != MODE_TRIANGLES {
        Some(model)
    } else if !positions_read(file, mesh as int, part as int) {
        None
    } else {
        match glb_positions(file, mesh, part) {
            None => Some(model),
            Some(positions) => if !normals_read(file, mesh as int, part as int) || !uvs_read(
                file,
                mesh as int,
                part as int,
            ) || !indices_read(file, mesh as int, part as int) {
                None
            } else {
                match appended(model, way, positions, attributes_of(file, mesh, part)) {
                    None => None,
                    Some(m) => textured(
                        m,
                        row.image,
                        glb_images(file),
                        glb_views(file),
                        blob,
                    ),
                }
            },
        }
    }
}

/// The model with the first `n` primitives of a mesh.
pub open spec fn with_parts(
    file: Seq<u8>,
    blob: Option<Seq<u8>>,
    model: GlbModelView,
    way: Seq<usize>,
    mesh: nat,
    n: nat,
) -> Option<GlbModelView>
    decreases n,
{
    if n == 0 {
        Some(model)
    } else {
        match with_parts(file, blob, model, way, mesh, (n - 1) as nat) {
            None => None,
            Some(m) => with_part(file, blob, m, way, mesh, (n - 1) as nat),
        }
    }
}

/// The model with what the node at the end of a way shows.
pub open spec fn with_way(
    file: Seq<u8>,
    outline: OutlineView,
    model: GlbModelView,
    way: Seq<usize>,
) -> Option<GlbModelView> {
    if way.len() == 0 || way.last() >= outline.nodes.len() {
        None
    } else {
        match outline.nodes[way.last() as int].mesh {
            None => Some(model),
            Some(mesh) => if mesh >= glb_parts(file).len() {
                None
            } else {
                with_parts(
                    file,
                    outline.blob,
                    model,
                    way,
                    mesh as nat,
                    glb_parts(file)[mesh as int].len(),
                )
            },
        }
    }
}

/// A model of nothing.
pub open spec fn nothing() -> GlbModelView {
    GlbModelView {
        vertices: Seq::empty(),
        pieces: Seq::empty(),
        indices: Seq::empty(),
        texture: None,
    }
}

/// The model of what the nodes at the ends of the first `n` ways show.
pub open spec fn with_ways(
    file: Seq<u8>,
    outline: OutlineView,
    ways: Seq<Seq<usize>>,
    n: nat,
) -> Option<GlbModelView>
    decreases n,
{
    if n == 0 {
        Some(nothing())
    } else {
        match with_ways(file, outline, ways, (n - 1) as nat) {
            None => None,
            Some(m) => with_way(file, outline, m, ways[n - 1]),
        }
    }
}

/// What a file of at most `limit` shown nodes gives: a model, or why there is none.
/// There is no answer where the file can neither be opened nor refused, where the
/// nodes go round in circles, where the accessors or the image of a primitive that is
/// shown cannot be read, or where its vertices cannot be numbered.
pub open spec fn parsed(file: Seq<u8>, limit: nat) -> Option<Result<GlbModelView, Seq<char>>> {
    if !opens(file) {
        None
    } else {
        match glb_outline(file) {
            Err(e) => Some(Err(e)),
            Ok(outline) => match shown_roots(outline) {
                None => Some(Err("glb has no scene"@)),
                Some(roots) => match walked(outline.nodes, ways_in(roots), limit) {
                    None => None,
                    Some(ways) => match with_ways(file, outline, ways, ways.len()) {
                        None => None,
                        Some(m) => Some(
                            if m.vertices.len() == 0 || m.indices.len() == 0 {
                                Err("glb has no triangles"@)
                            } else {
                                Ok(m)
                            },
                        ),
                    },
                },
            },
        }
    }
}

/// The view of what parsing a file gives.
pub open spec fn model_view(outcome: Result<GlbModel, String>) -> Result<GlbModelView, Seq<char>> {
    match outcome {
        Ok(m) => Ok(m@),
        Err(e) => Err(e@),
    }
}

/// The tables of a file.
struct Tables {
    outline: GlbOutline,
    parts: Vec<Vec<GlbPart>>,
    accessors: Vec<GlbAccessor>,
    views: Vec<GlbBufferView>,
    images: Vec<GlbImage>,
}

impl Tables {
    spec fn of(&self, file: Seq<u8>) -> bool {
        &&& opens(file)
        &&& glb_outline(file) == Ok::<OutlineView, Seq<char>>(self.outline@)
        &&& list_views(self.parts@) == glb_parts(file)
        &&& self.accessors@ == glb_accessors(file)
        &&& self.views@ == glb_views(file)
        &&& image_views(self.images@) == glb_images(file)
    }

    fn add_part(
        &self,
        file: &[u8],
        model: &mut GlbModel,
        way: &Vec<usize>,
        mesh: usize,
        part: usize,
    ) -> (added: bool)
        requires
            self.of(file@),
            has_part(glb_parts(file@), mesh as int, part as int),
        ensures
            match with_part(
                file@,
                self.outline@.blob,
                old(model)@,
                way@,
                mesh as nat,
                part as nat,
            ) {
                Some(m) => added && final(model)@ == m,
                None => !added,
            },
    {
        assert(glb_parts(file@)[mesh as int] == self.parts@[mesh as int]@);
        let row: GlbPart = self.parts[mesh][part];
        if row.mode != MODE_TRIANGLES {
            return true;
        }
        if !readable(&self.accessors, &self.views, row.positions, Reading::Vectors) {
            return false;
        }
        let positions: Vec<Bits3> = match read_positions(file, mesh, part) {
            None => {
                return true;
            },
            Some(p) => p,
        };
        if !readable(&self.accessors, &self.views, row.normals, Reading::Vectors) || !readable(
            &self.accessors,
            &self.views,
            row.uvs,
            Reading::Coordinates,
        ) || !readable(&self.accessors, &self.views, row.indices, Reading::Indices) {
            return false;
        }
        let attributes = GlbAttributes {
            normals: read_normals(file, mesh, part),
            uvs: read_uvs(file, mesh, part),
            indices: read_indices(file, mesh, part),
        };
        assert(attributes@ =~= attributes_of(file@, mesh as nat, part as nat));
        if !model.append(way, &positions, &attributes) {
            return false;
        }
        model.take_texture(row.image, &self.images, &self.views, &self.outline.blob)
    }

    fn add_way(&self, file: &[u8], model: &mut GlbModel, way: &Vec<usize>) -> (added: bool)
        requires
            self.of(file@),
        ensures
            match with_way(file@, self.outline@, old(model)@, way@) {
                Some(m) => added && final(model)@ == m,
                None => !added,
            },
    {
        if way.len() == 0 {
            return false;
        }
        let at: usize = way[way.len() - 1];
        if at >= self.outline.nodes.len() {
            return false;
        }
        assert(self.outline@.nodes[at as int] == self.outline.nodes@[at as int]@);
        let mesh: usize = match self.outline.nodes[at].mesh {
            None => {
                return true;
            },
            Some(m) => m,
        };
        if mesh >= self.parts.len() {
            return false;
        }
        assert(glb_parts(file@)[mesh as int] == self.parts@[mesh as int]@);
        let ghost blob = self.outline@.blob;
        let ghost start = model@;
        let mut k: usize = 0;
        while k < self.parts[mesh].len()
            invariant
                self.of(file@),
                mesh < self.parts@.len(),
                mesh < glb_parts(file@).len(),
                glb_parts(file@)[mesh as int] == self.parts@[mesh as int]@,
                blob == self.outline@.blob,
                k <= self.parts@[mesh as int]@.len(),
                with_parts(file@, blob, start, way@, mesh as nat, k as nat) == Some(model@),
                with_way(file@, self.outline@, start, way@) == with_parts(
                    file@,
                    blob,
                    start,
                    way@,
                    mesh as nat,
                    self.parts@[mesh as int]@.len(),
                ),
                start == old(model)@,
            decreases self.parts@[mesh as int]@.len() - k,
        {
            let ghost before = model@;
            if !self.add_part(file, model, way, mesh, k) {
                proof {
                    lemma_part_missing(
                        file@,
                        blob,
                        start,
                        way@,
                        mesh as nat,
                        (k + 1) as nat,
                        self.parts@[mesh as int]@.len(),
                    );
                }
                return false;
            }
            k = k + 1;
        }
        true
    }
}

/// Where one of the first primitives cannot be added, nor can more.
proof fn lemma_part_missing(
    file: Seq<u8>,
    blob: Option<Seq<u8>>,
    model: GlbModelView,
    way: Seq<usize>,
    mesh: nat,
    n: nat,
    m: nat,
)
    requires
        with_parts(file, blob, model, way, mesh, n) is None,
        n <= m,
    ensures
        with_parts(file, blob, model, way, mesh, m) is None,
    decreases m,
{
    if n < m {
        lemma_part_missing(file, blob, model, way, mesh, n, (m - 1) as nat);
    }
}

/// Where what one of the first ways leads to cannot be added, nor can more.
proof fn lemma_way_missing(
    file: Seq<u8>,
    outline: OutlineView,
    ways: Seq<Seq<usize>>,
    n: nat,
    m: nat,
)
    requires
        with_ways(file, outline, ways, n) is None,
        n <= m,
    ensures
        with_ways(file, outline, ways, m) is None,
    decreases m,
{
    if n < m {
        lemma_way_missing(file, outline, ways, n, (m - 1) as nat);
    }
}

/// Whether a file can be opened or is refused.
pub fn can_open(file: &[u8]) -> (can: bool)
    ensures
        can == opens(file@),
{
    if file.len() >= 12 && file[0] == 0x67 && file[1] == 0x6c && file[2] == 0x54 && file[3] == 0x46
        && read_word(file, 8) < 12 {
        return false;
    }
    match read_names(file) {
        Some((names, count)) => all_fit(&names, count),
        None => true,
    }
}

fn all_fit(names: &Vec<Vec<Option<usize>>>, count: usize) -> (fit: bool)
    ensures
        fit == names_fit(list_views(names@), count as nat),
{
    let ghost all = list_views(names@);
    let mut m: usize = 0;
    while m < names.len()
        invariant
            m <= names@.len(),
            all == list_views(names@),
            forall|i: int, p: int|
                0 <= i < m && 0 <= p < all[i].len() ==> (#[trigger] all[i][p] matches Some(a) ==> a
                    < count),
        decreases names@.len() - m,
    {
        assert(all[m as int] == names@[m as int]@);
        let mut p: usize = 0;
        while p < names[m].len()
            invariant
                m < names@.len(),
                p <= names@[m as int]@.len(),
                all == list_views(names@),
                all[m as int] == names@[m as int]@,
                forall|i: int, q: int|
                    0 <= i < m && 0 <= q < all[i].len() ==> (#[trigger] all[i][q] matches Some(a)
                        ==> a < count),
                forall|q: int|
                    0 <= q < p ==> (#[trigger] all[m as int][q] matches Some(a) ==> a < count),
            decreases names@[m as int]@.len() - p,
        {
            if let Some(a) = names[m][p] {
                if a >= count {
                    assert(all[m as int][p as int] == Some(a));
                    return false;
                }
            }
            p = p + 1;
        }
        m = m + 1;
    }
    true
}

/// The model in a file of at most `limit` shown nodes, or why there is none, if the
/// file can be read.
pub fn try_parse_glb(file: &[u8], limit: u64) -> (model: Option<Result<GlbModel, String>>)
    ensures
        match parsed(file@, limit as nat) {
            Some(r) => model matches Some(m) && model_view(m) == r,
            None => model is None,
        },
{
    if !can_open(file) {
        return None;
    }
    let outline: GlbOutline = match open_glb(file) {
        Err(e) => {
            return Some(Err(e));
        },
        Ok(o) => o,
    };
    let ways: Vec<Vec<usize>> = match outline.roots() {
        None => {
            return Some(Err("glb has no scene".to_owned()));
        },
        Some(roots) => match walk(&outline.nodes, roots, limit) {
            None => {
                return None;
            },
            Some(w) => w,
        },
    };
    let tables = Tables {
        outline,
        parts: read_parts(file),
        accessors: read_accessors(file),
        views: read_views(file),
        images: read_images(file),
    };
    let mut model: GlbModel = GlbModel::empty();
    let ghost ws = list_views(ways@);
    let ghost o = tables.outline@;
    let mut i: usize = 0;
    while i < ways.len()
        invariant
            tables.of(file@),
            o == tables.outline@,
            ws == list_views(ways@),
            i <= ways@.len(),
            with_ways(file@, o, ws, i as nat) == Some(model@),
            parsed(file@, limit as nat) is Some <==> with_ways(file@, o, ws, ws.len()) is Some,
        decreases ways@.len() - i,
    {
        assert(ws[i as int] == ways@[i as int]@);
        if !tables.add_way(file, &mut model, &ways[i]) {
            proof {
                lemma_way_missing(file@, o, ws, (i + 1) as nat, ws.len());
            }
            return None;
        }
        i = i + 1;
    }
    if model.vertices.len() == 0 || model.indices.len() == 0 {
        return Some(Err("glb has no triangles".to_owned()));
    }
    Some(Ok(model))
}

/// The model in a file, or why there is none.
pub fn parse_glb(bytes: &[u8]) -> (model: Result<GlbModel, String>)
    requires
        parsed(bytes@, u64::MAX as nat) is Some,
    ensures
        parsed(bytes@, u64::MAX as nat) == Some(model_view(model)),
{
    match try_parse_glb(bytes, u64::MAX) {
        Some(m) => m,
        None => vstd::pervasive::unreached(),
    }
}

/// A walk that ends within a limit is the same within any higher limit.
pub proof fn lemma_walk_ends(nodes: Seq<NodeView>, stack: Seq<Seq<usize>>, limit: nat, more: nat)
    requires
        walked(nodes, stack, limit) is Some,
        limit <= more,
    ensures
        walked(nodes, stack, more) == walked(nodes, stack, limit),
    decreases limit,
{
    if stack.len() > 0 {
        let way = stack.last();
        let next = stack.drop_last() + ways_on(way, nodes[way.last() as int].children);
        lemma_walk_ends(nodes, next, (limit - 1) as nat, (more - 1) as nat);
    }
}

/// Whether the pieces of a model follow one another, from the first of its vertices
/// to the last.
pub open spec fn pieced(model: GlbModelView) -> bool {
    &&& forall|p: int|
        0 <= p < model.pieces.len() ==> (#[trigger] model.pieces[p]).from == pieces_len(
            model.pieces.take(p),
        )
    &&& pieces_len(model.pieces) == model.vertices.len()
}

/// How many vertices the pieces hold.
pub open spec fn pieces_len(pieces: Seq<PieceView>) -> nat
    decreases pieces.len(),
{
    if pieces.len() == 0 {
        0
    } else {
        pieces_len(pieces.drop_last()) + pieces.last().count as nat
    }
}

proof fn lemma_part_pieced(
    file: Seq<u8>,
    blob: Option<Seq<u8>>,
    model: GlbModelView,
    way: Seq<usize>,
    mesh: nat,
    part: nat,
)
    requires
        pieced(model),
    ensures
        with_part(file, blob, model, way, mesh, part) matches Some(m) ==> pieced(m),
{
    if let Some(m) = with_part(file, blob, model, way, mesh, part) {
        if m.pieces != model.pieces {
            assert(m.pieces.drop_last() =~= model.pieces);
            assert forall|p: int| 0 <= p < m.pieces.len() implies (#[trigger] m.pieces[p]).from
                == pieces_len(m.pieces.take(p)) by {
                assert(m.pieces.take(p) =~= model.pieces.take(p));
                if p < model.pieces.len() {
                    assert(m.pieces[p] == model.pieces[p]);
                } else {
                    assert(model.pieces.take(p) =~= model.pieces);
                }
            }
        }
    }
}

proof fn lemma_parts_pieced(
    file: Seq<u8>,
    blob: Option<Seq<u8>>,
    model: GlbModelView,
    way: Seq<usize>,
    mesh: nat,
    n: nat,
)
    requires
        pieced(model),
    ensures
        with_parts(file, blob, model, way, mesh, n) matches Some(m) ==> pieced(m),
    decreases n,
{
    if n > 0 {
        lemma_parts_pieced(file, blob, model, way, mesh, (n - 1) as nat);
        if let Some(m) = with_parts(file, blob, model, way, mesh, (n - 1) as nat) {
            lemma_part_pieced(file, blob, m, way, mesh, (n - 1) as nat);
        }
    }
}

proof fn lemma_ways_pieced(file: Seq<u8>, outline: OutlineView, ways: Seq<Seq<usize>>, n: nat)
    ensures
        with_ways(file, outline, ways, n) matches Some(m) ==> pieced(m),
    decreases n,
{
    if n > 0 {
        lemma_ways_pieced(file, outline, ways, (n - 1) as nat);
        if let Some(m) = with_ways(file, outline, ways, (n - 1) as nat) {
            let way = ways[n - 1];
            let mesh = outline.nodes[way.last() as int].mesh;
            if mesh is Some {
                lemma_parts_pieced(
                    file,
                    outline.blob,
                    m,
                    way,
                    mesh->0 as nat,
                    glb_parts(file)[mesh->0 as int].len(),
                );
            }
        }
    }
}

/// The pieces of the model in a file follow one another, from the first of its
/// vertices to the last: every vertex came by exactly one way.
pub proof fn lemma_model_pieced(file: Seq<u8>, limit: nat)
    ensures
        parsed(file, limit) matches Some(Ok(m)) ==> pieced(m),
{
    if let Ok(outline) = glb_outline(file) {
        if let Some(roots) = shown_roots(outline) {
            if let Some(ways) = walked(outline.nodes, ways_in(roots), limit) {
                lemma_ways_pieced(file, outline, ways, ways.len());
            }
        }
    }
}

/// How many vertices the first `n` primitives of a mesh come to: those that are triangles
/// and have positions.
pub open spec fn mesh_vertices(file: Seq<u8>, mesh: nat, n: nat) -> nat
    decreases n,
{
    if n == 0 {
        0
    } else {
        let part = (n - 1) as nat;
        let triangles = glb_parts(file)[mesh as int][part as int].mode == MODE_TRIANGLES;
        mesh_vertices(file, mesh, part) + (match glb_positions(file, mesh, part) {
            Some(positions) if triangles => positions.len(),
            _ => 0,
        })
    }
}

/// How many vertices the nodes at the ends of the first `n` ways come to, each with all
/// primitives of its mesh.
pub open spec fn ways_vertices(
    file: Seq<u8>,
    outline: OutlineView,
    ways: Seq<Seq<usize>>,
    n: nat,
) -> nat
    decreases n,
{
    if n == 0 {
        0
    } else {
        ways_vertices(file, outline, ways, (n - 1) as nat) + (
        match outline.nodes[ways[n - 1].last() as int].mesh {
            Some(mesh) => mesh_vertices(file, mesh as nat, glb_parts(file)[mesh as int].len()),
            None => 0,
        })
    }
}

/// Whether a piece of a model is a primitive: it came by that way, has its positions with
/// their normals and texture coordinates, and the triangles between them.
pub open spec fn piece_shows(
    model: GlbModelView,
    piece: PieceView,
    way: Seq<usize>,
    positions: Seq<Bits3>,
    attributes: AttributesView,
) -> bool {
    &&& piece.way == way
    &&& piece.count == positions.len()
    &&& piece.from + piece.count <= model.vertices.len()
    &&& forall|k: int|
        0 <= k < positions.len() ==> {
            let vertex = #[trigger] model.vertices[piece.from + k];
            &&& vertex.pos == positions[k]
            &&& attributes.normals matches Some(n) ==> vertex.nrm == n[k]
            &&& attributes.normals is None ==> vertex.nrm == (Bits3 { x: 0, y: ONE_BITS, z: 0 })
            &&& attributes.uvs matches Some(t) ==> k < t.len() ==> vertex.uv == t[k]
            &&& attributes.uvs matches Some(t) ==> k >= t.len() ==> vertex.uv == (Bits2 {
                x: 0,
                y: 0,
            })
            &&& attributes.uvs is None ==> vertex.uv == (Bits2 { x: 0, y: 0 })
        }
    &&& exists|at: int| #[trigger]
        corners_from(model.indices, at, piece.from, attributes.indices, positions.len())
}

/// Whether the corners of a primitive stand in a list from a place on, counted from the
/// first vertex of their piece: those that are named, or all `count` vertices in turn.
pub open spec fn corners_from(
    indices: Seq<u32>,
    at: int,
    from: u32,
    named: Option<Seq<u32>>,
    count: nat,
) -> bool {
    let len = match named {
        Some(list) => list.len(),
        None => count,
    };
    &&& 0 <= at
    &&& at + len <= indices.len()
    &&& forall|c: int|
        0 <= c < len ==> #[trigger] indices[at + c] == from + (match named {
            Some(list) => list[c] as int,
            None => c,
        })
}

/// Whether one of the pieces of a model is that primitive.
pub open spec fn shows_part(
    model: GlbModelView,
    way: Seq<usize>,
    positions: Seq<Bits3>,
    attributes: AttributesView,
) -> bool {
    exists|p: int|
        0 <= p < model.pieces.len() && piece_shows(
            model,
            #[trigger] model.pieces[p],
            way,
            positions,
            attributes,
        )
}

/// Whether a model has all that another has, and where it was.
spec fn extends(a: GlbModelView, b: GlbModelView) -> bool {
    &&& a.vertices.len() <= b.vertices.len()
    &&& a.pieces.len() <= b.pieces.len()
    &&& a.indices.len() <= b.indices.len()
    &&& forall|i: int| 0 <= i < a.vertices.len() ==> #[trigger] b.vertices[i] == a.vertices[i]
    &&& forall|i: int| 0 <= i < a.pieces.len() ==> #[trigger] b.pieces[i] == a.pieces[i]
    &&& forall|i: int| 0 <= i < a.indices.len() ==> #[trigger] b.indices[i] == a.indices[i]
}

proof fn lemma_part_extends(
    file: Seq<u8>,
    blob: Option<Seq<u8>>,
    model: GlbModelView,
    way: Seq<usize>,
    mesh: nat,
    part: nat,
)
    ensures
        with_part(file, blob, model, way, mesh, part) matches Some(m) ==> {
            &&& extends(model, m)
            &&& m.vertices.len() == model.vertices.len() + mesh_vertices(file, mesh, part + 1)
                - mesh_vertices(file, mesh, part)
            &&& glb_parts(file)[mesh as int][part as int].mode == MODE_TRIANGLES && glb_positions(
                file,
                mesh,
                part,
            ) is Some ==> shows_part(
                m,
                way,
                glb_positions(file, mesh, part)->0,
                attributes_of(file, mesh, part),
            )
        },
{
    if let Some(m) = with_part(file, blob, model, way, mesh, part) {
        let triangles = glb_parts(file)[mesh as int][part as int].mode == MODE_TRIANGLES;
        if triangles && glb_positions(file, mesh, part) is Some {
            let positions = glb_positions(file, mesh, part)->0;
            let attributes = attributes_of(file, mesh, part);
            let list = corners(positions, attributes);
            let base = model.vertices.len();
            let added = appended(model, way, positions, attributes)->0;
            assert(m.vertices == added.vertices && m.pieces == added.pieces && m.indices
                == added.indices);
            let p = model.pieces.len() as int;
            let piece = m.pieces[p];
            assert(piece == PieceView { way, from: base as u32, count: positions.len() as usize });
            assert forall|k: int| 0 <= k < positions.len() implies #[trigger] m.vertices[piece.from
                + k] == part_vertex(positions, attributes, k) by {}
            let at = model.indices.len() as int;
            assert forall|c: int| 0 <= c < list.len() implies #[trigger] m.indices[at + c]
                == piece.from + list[c] by {
                assert(base + list[c] <= u32::MAX);
            }
            assert(corners_from(m.indices, at, piece.from, attributes.indices, positions.len()));
            assert(piece_shows(m, m.pieces[p], way, positions, attributes));
        }
    }
}

proof fn lemma_shown_stays(
    a: GlbModelView,
    b: GlbModelView,
    way: Seq<usize>,
    positions: Seq<Bits3>,
    attributes: AttributesView,
)
    requires
        extends(a, b),
        shows_part(a, way, positions, attributes),
    ensures
        shows_part(b, way, positions, attributes),
{
    let p = choose|p: int|
        0 <= p < a.pieces.len() && piece_shows(
            a,
            #[trigger] a.pieces[p],
            way,
            positions,
            attributes,
        );
    let piece = a.pieces[p];
    let named = attributes.indices;
    let count = positions.len();
    let at = choose|at: int| #[trigger] corners_from(a.indices, at, piece.from, named, count);
    assert forall|c: int| 0 <= at + c < a.indices.len() implies #[trigger] b.indices[at + c]
        == a.indices[at + c] by {}
    assert(corners_from(b.indices, at, piece.from, named, count));
    assert forall|k: int| 0 <= k < positions.len() implies #[trigger] b.vertices[piece.from + k]
        == a.vertices[piece.from + k] by {}
    assert(b.pieces[p] == piece);
    assert(piece_shows(b, b.pieces[p], way, positions, attributes));
}

proof fn lemma_parts_shown(
    file: Seq<u8>,
    blob: Option<Seq<u8>>,
    model: GlbModelView,
    way: Seq<usize>,
    mesh: nat,
    n: nat,
    part: nat,
)
    ensures
        with_parts(file, blob, model, way, mesh, n) matches Some(m) ==> {
            &&& extends(model, m)
            &&& m.vertices.len() == model.vertices.len() + mesh_vertices(file, mesh, n)
            &&& part < n && glb_parts(file)[mesh as int][part as int].mode == MODE_TRIANGLES
                && glb_positions(file, mesh, part) is Some ==> shows_part(
                m,
                way,
                glb_positions(file, mesh, part)->0,
                attributes_of(file, mesh, part),
            )
        },
    decreases n,
{
    if n > 0 {
        let last = (n - 1) as nat;
        lemma_parts_shown(file, blob, model, way, mesh, last, part);
        if let Some(before) = with_parts(file, blob, model, way, mesh, last) {
            lemma_part_extends(file, blob, before, way, mesh, last);
            if let Some(m) = with_part(file, blob, before, way, mesh, last) {
                if part < last && glb_parts(file)[mesh as int][part as int].mode == MODE_TRIANGLES
                    && glb_positions(file, mesh, part) is Some {
                    lemma_shown_stays(
                        before,
                        m,
                        way,
                        glb_positions(file, mesh, part)->0,
                        attributes_of(file, mesh, part),
                    );
                }
            }
        }
    }
}

proof fn lemma_ways_shown(
    file: Seq<u8>,
    outline: OutlineView,
    ways: Seq<Seq<usize>>,
    n: nat,
    w: nat,
    part: nat,
)
    ensures
        with_ways(file, outline, ways, n) matches Some(m) ==> {
            &&& m.vertices.len() == ways_vertices(file, outline, ways, n)
            &&& w < n ==> (outline.nodes[ways[w as int].last() as int].mesh matches Some(mesh)
                ==> part < glb_parts(file)[mesh as int].len() && glb_parts(
                file,
            )[mesh as int][part as int].mode == MODE_TRIANGLES && glb_positions(
                file,
                mesh as nat,
                part,
            ) is Some ==> shows_part(
                m,
                ways[w as int],
                glb_positions(file, mesh as nat, part)->0,
                attributes_of(file, mesh as nat, part),
            ))
        },
    decreases n,
{
    if n > 0 {
        let last = (n - 1) as nat;
        lemma_ways_shown(file, outline, ways, last, w, part);
        if let Some(before) = with_ways(file, outline, ways, last) {
            let way = ways[last as int];
            if let Some(mesh) = outline.nodes[way.last() as int].mesh {
                lemma_parts_shown(
                    file,
                    outline.blob,
                    before,
                    way,
                    mesh as nat,
                    glb_parts(file)[mesh as int].len(),
                    part,
                );
            }
            if let Some(m) = with_ways(file, outline, ways, n) {
                assert(extends(before, m));
                if w < last {
                    if let Some(mesh) = outline.nodes[ways[w as int].last() as int].mesh {
                        if shows_part(
                            before,
                            ways[w as int],
                            glb_positions(file, mesh as nat, part)->0,
                            attributes_of(file, mesh as nat, part),
                        ) {
                            lemma_shown_stays(
                                before,
                                m,
                                ways[w as int],
                                glb_positions(file, mesh as nat, part)->0,
                                attributes_of(file, mesh as nat, part),
                            );
                        }
                    }
                }
            }
        }
    }
}

/// Nothing of a file that is shown is missing from its model: every primitive of the mesh
/// of every node that is reached, if it is triangles with positions, is a piece of the
/// model, and the model has as many vertices as all of these together.
pub proof fn lemma_every_part_shown(file: Seq<u8>, limit: nat, w: nat, part: nat)
    ensures
        parsed(file, limit) matches Some(Ok(m)) ==> {
            let outline = glb_outline(file)->Ok_0;
            let ways = walked(outline.nodes, ways_in(shown_roots(outline)->0), limit)->0;
            &&& m.vertices.len() == ways_vertices(file, outline, ways, ways.len())
            &&& w < ways.len() ==> (outline.nodes[ways[w as int].last() as int].mesh matches Some(
                mesh,
            ) ==> part < glb_parts(file)[mesh as int].len() && glb_parts(
                file,
            )[mesh as int][part as int].mode == MODE_TRIANGLES && glb_positions(
                file,
                mesh as nat,
                part,
            ) is Some ==> shows_part(
                m,
                ways[w as int],
                glb_positions(file, mesh as nat, part)->0,
                AttributesView {
                    normals: glb_normals(file, mesh as nat, part),
                    uvs: glb_uvs(file, mesh as nat, part),
                    indices: glb_indices(file, mesh as nat, part),
                },
            ))
        },
{
    if let Ok(outline) = glb_outline(file) {
        if let Some(roots) = shown_roots(outline) {
            if let Some(ways) = walked(outline.nodes, ways_in(roots), limit) {
                lemma_ways_shown(file, outline, ways, ways.len(), w, part);
            }
        }
    }
}

/// The scene that is shown is the default scene, where the file has it, and else the first.
pub proof fn lemma_scene_shown(outline: OutlineView)
    ensures
        shown_roots(outline) is None <==> outline.scenes.len() == 0,
        outline.default_scene matches Some(s) ==> s < outline.scenes.len() ==> shown_roots(outline)
            == Some(outline.scenes[s as int]),
        outline.default_scene is None && outline.scenes.len() > 0 ==> shown_roots(outline) == Some(
            outline.scenes[0],
        ),
{
}

proof fn lemma_walk_from_stack(nodes: Seq<NodeView>, stack: Seq<Seq<usize>>, limit: nat)
    requires
        walked(nodes, stack, limit) is Some,
    ensures
        ({
            let ways = walked(nodes, stack, limit)->0;
            &&& forall|i: int| 0 <= i < stack.len() ==> ways.contains(#[trigger] stack[i])
            &&& forall|i: int, c: int|
                #![trigger ways[i], nodes[ways[i].last() as int].children[c]]
                0 <= i < ways.len() && 0 <= c < nodes[ways[i].last() as int].children.len()
                    ==> ways.contains(
                    ways[i].push(nodes[ways[i].last() as int].children[c]),
                )
            &&& forall|i: int|
                0 <= i < ways.len() ==> (#[trigger] ways[i]).len() > 0 && ways[i].last()
                    < nodes.len() && (stack.contains(ways[i]) || follows(nodes, ways, i))
            &&& stack.len() > 0 ==> ways.len() > 0 && ways[0] == stack.last()
            &&& forall|i: int|
                #![trigger ways[i]]
                0 <= i < ways.len() && nodes[ways[i].last() as int].children.len() > 0 ==> i + 1
                    < ways.len() && ways[i + 1] == ways[i].push(
                    nodes[ways[i].last() as int].children.last(),
                )
        }),
    decreases limit,
{
    if stack.len() > 0 {
        let way = stack.last();
        let children = nodes[way.last() as int].children;
        let on = ways_on(way, children);
        let next = stack.drop_last() + on;
        let rest = walked(nodes, next, (limit - 1) as nat)->0;
        let ways = walked(nodes, stack, limit)->0;
        lemma_walk_from_stack(nodes, next, (limit - 1) as nat);
        assert(ways == seq![way] + rest);
        assert(ways[0] == way);
        assert forall|v: Seq<usize>| #[trigger] rest.contains(v) implies ways.contains(v) by {
            let j = choose|j: int| 0 <= j < rest.len() && rest[j] == v;
            assert(ways[j + 1] == v);
        }
        assert forall|i: int| 0 <= i < stack.len() implies ways.contains(#[trigger] stack[i]) by {
            if i < stack.len() - 1 {
                assert(next[i] == stack[i]);
            }
        }
        assert forall|c: int| 0 <= c < children.len() implies ways.contains(
            #[trigger] way.push(children[c]),
        ) by {
            assert(next[stack.len() - 1 + c] == on[c]);
        }
        assert forall|i: int, c: int|
            #![trigger ways[i], nodes[ways[i].last() as int].children[c]]
            0 <= i < ways.len() && 0 <= c < nodes[ways[i].last() as int].children.len()
            implies ways.contains(ways[i].push(nodes[ways[i].last() as int].children[c])) by {
            if i > 0 {
                assert(ways[i] == rest[i - 1]);
                assert(rest.contains(
                    rest[i - 1].push(nodes[rest[i - 1].last() as int].children[c]),
                ));
            } else {
                assert(ways.contains(way.push(children[c])));
            }
        }
        assert forall|i: int| 0 <= i < ways.len() implies (#[trigger] ways[i]).len() > 0
            && ways[i].last() < nodes.len() && (stack.contains(ways[i]) || follows(
            nodes,
            ways,
            i,
        )) by {
            if i == 0 {
                assert(stack[stack.len() - 1] == way);
            } else {
                let v = rest[i - 1];
                assert(ways[i] == v);
                if next.contains(v) {
                    let j = choose|j: int| 0 <= j < next.len() && next[j] == v;
                    if j < stack.len() - 1 {
                        assert(stack[j] == v);
                    } else {
                        let c = j - (stack.len() - 1);
                        assert(on[c] == v);
                        assert(v.drop_last() =~= way);
                        assert(v.last() == children[c]);
                        assert(ways[0] == v.drop_last());
                        assert(children.contains(v.last()));
                    }
                } else {
                    let j = choose|j: int|
                        0 <= j < i - 1 && #[trigger] rest[j] == v.drop_last()
                            && nodes[v.drop_last().last() as int].children.contains(v.last());
                    assert(ways[j + 1] == v.drop_last());
                }
            }
        }
        assert forall|i: int|
            #![trigger ways[i]]
            0 <= i < ways.len() && nodes[ways[i].last() as int].children.len() > 0 implies i + 1
            < ways.len() && ways[i + 1] == ways[i].push(
            nodes[ways[i].last() as int].children.last(),
        ) by {
            if i == 0 {
                assert(next.last() == way.push(children.last()));
                assert(rest[0] == next.last());
            } else {
                assert(ways[i] == rest[i - 1]);
                assert(ways[i + 1] == rest[i]);
            }
        }
    }
}

/// Whether the `i`-th way goes one step on from one before it: to a child of the node at
/// its end.
pub open spec fn follows(nodes: Seq<NodeView>, ways: Seq<Seq<usize>>, i: int) -> bool {
    let way = ways[i];
    exists|j: int|
        0 <= j < i && #[trigger] ways[j] == way.drop_last()
            && nodes[way.drop_last().last() as int].children.contains(way.last())
}

/// A walk reaches everything that hangs together with the roots, and nothing else: the
/// root nodes, and with each node its children, after it.
pub proof fn lemma_walk_reaches_all(nodes: Seq<NodeView>, roots: Seq<usize>, limit: nat, i: int)
    requires
        walked(nodes, ways_in(roots), limit) is Some,
        0 <= i < walked(nodes, ways_in(roots), limit)->0.len(),
    ensures
        ({
            let ways = walked(nodes, ways_in(roots), limit)->0;
            let way = ways[i];
            let children = nodes[way.last() as int].children;
            &&& forall|r: int| 0 <= r < roots.len() ==> ways.contains(seq![#[trigger] roots[r]])
            &&& forall|c: int|
                0 <= c < children.len() ==> ways.contains(way.push(#[trigger] children[c]))
            &&& way.len() > 0 && way.last() < nodes.len()
            &&& (way.len() == 1 && roots.contains(way[0])) || follows(nodes, ways, i)
            &&& children.len() > 0 ==> i + 1 < ways.len() && ways[i + 1] == way.push(
                children.last(),
            )
            &&& ways[0] == seq![roots.last()]
        }),
{
    let stack = ways_in(roots);
    let ways = walked(nodes, stack, limit)->0;
    lemma_walk_from_stack(nodes, stack, limit);
    assert forall|r: int| 0 <= r < roots.len() implies #[trigger] stack[r] == seq![roots[r]] by {
        assert(stack[r] =~= seq![roots[r]]);
    }
    assert forall|r: int| 0 <= r < roots.len() implies ways.contains(seq![#[trigger] roots[r]]) by {
        assert(ways.contains(stack[r]));
    }
    if stack.contains(ways[i]) {
        let r = choose|r: int| 0 <= r < stack.len() && stack[r] == ways[i];
        assert(ways[i] == seq![roots[r]]);
        assert(ways[i][0] == roots[r]);
    }
    assert(stack.len() > 0) by {
        if stack.len() == 0 {
            assert(ways.len() == 0);
        }
    }
    assert(stack.last() == stack[roots.len() - 1]);
}

/// The first texture that is found stays. While there is none, a primitive with an image
/// whose bytes come with the file gives the picture in those bytes.
pub proof fn lemma_first_texture_stays(
    model: GlbModelView,
    image: Option<usize>,
    images: Seq<ImageView>,
    views: Seq<GlbBufferView>,
    blob: Seq<u8>,
)
    ensures
        model.texture is Some || image is None ==> textured(model, image, images, views, Some(blob))
            == Some(model),
        textured(model, image, images, views, Some(blob)) matches Some(m) ==> m.vertices
            == model.vertices && m.pieces == model.pieces && m.indices == model.indices,
        model.texture is None && image is Some && image->0 < images.len() ==> {
            let found = images[image->0 as int];
            let after = textured(model, image, images, views, Some(blob));
            &&& found.view is None && found.uri ==> after is Some && after->0.texture is None
            &&& found.view is Some && found.view->0 < views.len() && found.mime is Some ==> {
                let part = views[found.view->0 as int];
                let end = part.offset + part.length;
                &&& blob.len() < end <= usize::MAX ==> after is Some && after->0.texture is None
                &&& end <= blob.len() && end <= usize::MAX ==> {
                    let bytes = blob.subrange(part.offset as int, end);
                    &&& occurs(found.mime->0, "png"@) && png_whole(bytes) ==> after is Some && (
                    png_image(bytes) matches Ok(picture) ==> after->0.texture == Some(picture))
                        && (png_image(bytes) is Err ==> after->0.texture is None)
                    &&& !occurs(found.mime->0, "png"@) && jpeg_whole(bytes) ==> after is Some && (
                    jpeg_image(bytes) matches Ok(picture) ==> after->0.texture == Some(picture))
                        && (jpeg_image(bytes) is Err ==> after->0.texture is None)
                }
            }
        },
{
}

/// A primitive is added to a model once: the model grows by a piece, by its positions and by
/// its corners, and its texture stays. It is refused if and only if it has fewer normals than
/// positions, or a vertex cannot be numbered.
pub proof fn lemma_primitive_added_once(
    model: GlbModelView,
    way: Seq<usize>,
    positions: Seq<Bits3>,
    attributes: AttributesView,
)
    ensures
        ({
            let base = model.vertices.len();
            let few = attributes.normals is Some && (attributes.normals->0).len()
                < positions.len();
            let far = base > u32::MAX || positions.len() > u32::MAX || match attributes.indices {
                Some(list) => exists|k: int|
                    0 <= k < list.len() && base + #[trigger] list[k] > u32::MAX,
                None => positions.len() > 0 && base + positions.len() - 1 > u32::MAX,
            };
            match appended(model, way, positions, attributes) {
                None => few || far,
                Some(m) => {
                    &&& !few && !far
                    &&& m.pieces.len() == model.pieces.len() + 1
                    &&& m.vertices.len() == model.vertices.len() + positions.len()
                    &&& m.indices.len() == model.indices.len() + (match attributes.indices {
                        Some(list) => list.len(),
                        None => positions.len(),
                    })
                    &&& m.texture == model.texture
                },
            }
        }),
{
    let base = model.vertices.len();
    let list = corners(positions, attributes);
    if base <= u32::MAX && positions.len() <= u32::MAX && attributes.indices is None {
        if positions.len() > 0 {
            assert(list[positions.len() - 1] == positions.len() - 1);
        }
        if base + positions.len() <= u32::MAX + 1 {
            assert(corners_fit(base, list)) by {
                assert forall|k: int| 0 <= k < list.len() implies base + #[trigger] list[k]
                    <= u32::MAX by {
                    assert(list[k] == k);
                }
            }
        }
    }
}

/// The texture of a model is the picture in that part of the file which the image names, read
/// as what the image says that it is. A model that has a texture keeps it.
pub proof fn lemma_texture_is_picture(
    model: GlbModelView,
    i: usize,
    images: Seq<ImageView>,
    views: Seq<GlbBufferView>,
    file: Seq<u8>,
)
    requires
        i < images.len(),
        images[i as int].view is Some,
        images[i as int].view->0 < views.len(),
        images[i as int].mime is Some,
        ({
            let part = views[images[i as int].view->0 as int];
            part.offset + part.length <= file.len() && file.len() <= usize::MAX
        }),
    ensures
        ({
            let part = views[images[i as int].view->0 as int];
            let bytes = file.subrange(part.offset as int, part.offset + part.length);
            let png = occurs(images[i as int].mime->0, "png"@);
            let after = textured(model, Some(i), images, views, Some(file));
            &&& model.texture is Some ==> after == Some(model)
            &&& model.texture is None && png && png_whole(bytes) ==> after == Some(
                GlbModelView {
                    texture: match png_image(bytes) {
                        Ok(image) => Some(image),
                        Err(_) => None,
                    },
                    ..model
                },
            )
            &&& model.texture is None && !png && jpeg_whole(bytes) ==> after == Some(
                GlbModelView {
                    texture: match jpeg_image(bytes) {
                        Ok(image) => Some(image),
                        Err(_) => None,
                    },
                    ..model
                },
            )
        }),
{
}

} // verus!
