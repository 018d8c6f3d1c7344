//! Models: what they are made of, and the blob in which a worker hands one over.
use crate::bytes::{copy_bytes, push_bytes, push_word, read_word};
#[allow(unused_imports)]
use crate::bytes::{lemma_words_read_back, word_at, word_bytes, words_bytes};
use vstd::prelude::*;

verus! {

/// The bytes before the vertices: the counts of vertices and indices, and the size
/// of the texture.
pub const MODEL_HEADER_BYTES: usize = 16;

/// Three floats, as their bits.
#[derive(Copy, Clone, PartialEq, Eq, Debug, Structural)]
pub struct Bits3 {
    pub x: u32,
    pub y: u32,
    pub z: u32,
}

/// Two floats, as their bits.
#[derive(Copy, Clone, PartialEq, Eq, Debug, Structural)]
pub struct Bits2 {
    pub x: u32,
    pub y: u32,
}

/// A vertex: position, normal and texture coordinates.
#[derive(Copy, Clone, PartialEq, Eq, Debug, Structural)]
pub struct ModelVertex {
    pub pos: Bits3,
    pub nrm: Bits3,
    pub uv: Bits2,
}

/// A model: its vertices, the triangles between them, and its texture as width,
/// height and pixels.
pub struct ModelData {
    pub vertices: Vec<ModelVertex>,
    pub indices: Vec<u32>,
    pub texture: Option<(u32, u32, Vec<u8>)>,
}

#[verifier::ext_equal]
pub struct ModelView {
    pub vertices: Seq<ModelVertex>,
    pub indices: Seq<u32>,
    pub texture: Option<(u32, u32, Seq<u8>)>,
}

impl View for ModelData {
    type V = ModelView;

    open spec fn view(&self) -> ModelView {
        ModelView {
            vertices: self.vertices@,
            indices: self.indices@,
            texture: match self.texture {
                Some(t) => Some((t.0, t.1, t.2@)),
                None => None,
            },
        }
    }
}

impl ModelData {
    /// The texture that is put on the model: one white pixel where it has none.
    pub fn shown_texture(&self) -> (texture: (u32, u32, Vec<u8>))
        ensures
            (texture.0, texture.1, texture.2@) == (match self@.texture {
                Some(t) => t,
                None => (1, 1, seq![255, 255, 255, 255]),
            }),
    {
        match &self.texture {
            Some((width, height, pixels)) => {
                let copied: Vec<u8> = copy_bytes(pixels.as_slice(), 0, pixels.len());
                assert(copied@ =~= pixels@);
                (*width, *height, copied)
            },
            None => {
                let white: Vec<u8> = vec![255, 255, 255, 255];
                assert(white@ =~= seq![255, 255, 255, 255]);
                (1, 1, white)
            },
        }
    }
}

/// The `k`-th of the eight words of a vertex.
pub open spec fn vertex_word(v: ModelVertex, k: int) -> u32 {
    if k == 0 {
        v.pos.x
    } else if k == 1 {
        v.pos.y
    } else if k == 2 {
        v.pos.z
    } else if k == 3 {
        v.nrm.x
    } else if k == 4 {
        v.nrm.y
    } else if k == 5 {
        v.nrm.z
    } else if k == 6 {
        v.uv.x
    } else {
        v.uv.y
    }
}

/// The words of the vertices, one vertex after the other.
pub open spec fn vertex_words(vertices: Seq<ModelVertex>) -> Seq<u32> {
    Seq::new(8 * vertices.len(), |i: int| vertex_word(vertices[i / 8], i % 8))
}

/// The vertex whose bytes start at `at`.
pub open spec fn vertex_at(bytes: Seq<u8>, at: int) -> ModelVertex {
    ModelVertex {
        pos: Bits3 {
            x: word_at(bytes, at),
            y: word_at(bytes, at + 4),
            z: word_at(bytes, at + 8),
        },
        nrm: Bits3 {
            x: word_at(bytes, at + 12),
            y: word_at(bytes, at + 16),
            z: word_at(bytes, at + 20),
        },
        uv: Bits2 { x: word_at(bytes, at + 24), y: word_at(bytes, at + 28) },
    }
}

/// The width, height and pixels of a texture, all of them none where there is no
/// texture.
pub open spec fn texture_parts(model: ModelView) -> (u32, u32, Seq<u8>) {
    match model.texture {
        Some(t) => t,
        None => (0u32, 0u32, Seq::empty()),
    }
}

/// The blob of a model: the header, the vertices, the indices and the pixels.
pub open spec fn encoded(model: ModelView) -> Seq<u8> {
    let (w, h, pixels) = texture_parts(model);
    words_bytes(
        seq![model.vertices.len() as u32, model.indices.len() as u32, w, h],
    ) + words_bytes(vertex_words(model.vertices)) + words_bytes(model.indices) + pixels
}

/// The model in a blob, if the blob is as long as its header says.
pub open spec fn decoded(bytes: Seq<u8>) -> Option<ModelView> {
    if bytes.len() < MODEL_HEADER_BYTES {
        None
    } else {
        let v = word_at(bytes, 0) as int;
        let i = word_at(bytes, 4) as int;
        let w = word_at(bytes, 8);
        let h = word_at(bytes, 12);
        let istart = MODEL_HEADER_BYTES + 32 * v;
        let tstart = istart + 4 * i;
        let end = tstart + 4 * (w * h);
        if bytes.len() < end {
            None
        } else {
            Some(
                ModelView {
                    vertices: Seq::new(v as nat, |k: int| vertex_at(bytes, 16 + 32 * k)),
                    indices: Seq::new(i as nat, |k: int| word_at(bytes, istart + 4 * k)),
                    texture: if w * h > 0 {
                        Some((w, h, bytes.subrange(tstart, end)))
                    } else {
                        None
                    },
                },
            )
        }
    }
}

/// Whether a model can be handed over: its counts fit the header, and its texture,
/// if it has one, has four bytes to the pixel.
pub open spec fn portable(model: ModelView) -> bool {
    &&& model.vertices.len() <= u32::MAX
    &&& model.indices.len() <= u32::MAX
    &&& model.texture matches Some(t) ==> t.2.len() == 4 * (t.0 * t.1) && t.0 > 0 && t.1 > 0
}

/// A model that was handed over is what it was.
pub proof fn lemma_decode_encoded(model: ModelView)
    requires
        portable(model),
    ensures
        decoded(encoded(model)) == Some(model),
{
    let (w, h, pixels) = texture_parts(model);
    let v = model.vertices.len();
    let n = model.indices.len();
    let head = seq![v as u32, n as u32, w, h];
    let words = vertex_words(model.vertices);
    let bytes = encoded(model);
    let istart = 16 + 32 * v as int;
    let tstart = istart + 4 * n as int;
    assert(words_bytes(head).len() == 16);
    assert(words_bytes(words).len() == 32 * v);
    assert(words_bytes(model.indices).len() == 4 * n);
    assert(bytes.len() == tstart + pixels.len());
    assert(bytes.subrange(0, 16) =~= words_bytes(head));
    assert(bytes.subrange(16, istart) =~= words_bytes(words));
    assert(bytes.subrange(istart, tstart) =~= words_bytes(model.indices));
    assert(bytes.subrange(tstart, bytes.len() as int) =~= pixels);
    lemma_words_read_back(head, bytes, 0, 0);
    lemma_words_read_back(head, bytes, 0, 1);
    lemma_words_read_back(head, bytes, 0, 2);
    lemma_words_read_back(head, bytes, 0, 3);
    assert(word_at(bytes, 0) == v && word_at(bytes, 4) == n && word_at(bytes, 8) == w && word_at(
        bytes,
        12,
    ) == h);
    assert(w * h > 0 <==> model.texture is Some) by {
        if w > 0 && h > 0 {
            assert(w * h > 0) by (nonlinear_arith)
                requires
                    w > 0,
                    h > 0,
            ;
        }
        if w == 0 {
            assert(w * h == 0) by (nonlinear_arith)
                requires
                    w == 0,
            ;
        }
    }
    assert(pixels.len() == 4 * (w * h)) by {
        if model.texture is None {
            assert(w * h == 0) by (nonlinear_arith)
                requires
                    w == 0,
            ;
        }
    }
    let found = decoded(bytes)->0;
    assert forall|k: int| 0 <= k < v implies #[trigger] found.vertices[k] == model.vertices[k] by {
        assert forall|c: int| 0 <= c < 8 implies #[trigger] word_at(bytes, 16 + 4 * (8 * k + c))
            == vertex_word(model.vertices[k], c) by {
            lemma_words_read_back(words, bytes, 16, 8 * k + c);
            assert((8 * k + c) / 8 == k);
            assert((8 * k + c) % 8 == c);
        }
        let at = 16 + 32 * k;
        assert(word_at(bytes, 16 + 4 * (8 * k + 0)) == vertex_word(model.vertices[k], 0));
        assert(word_at(bytes, 16 + 4 * (8 * k + 1)) == vertex_word(model.vertices[k], 1));
        assert(word_at(bytes, 16 + 4 * (8 * k + 2)) == vertex_word(model.vertices[k], 2));
        assert(word_at(bytes, 16 + 4 * (8 * k + 3)) == vertex_word(model.vertices[k], 3));
        assert(word_at(bytes, 16 + 4 * (8 * k + 4)) == vertex_word(model.vertices[k], 4));
        assert(word_at(bytes, 16 + 4 * (8 * k + 5)) == vertex_word(model.vertices[k], 5));
        assert(word_at(bytes, 16 + 4 * (8 * k + 6)) == vertex_word(model.vertices[k], 6));
        assert(word_at(bytes, 16 + 4 * (8 * k + 7)) == vertex_word(model.vertices[k], 7));
    }
    assert forall|k: int| 0 <= k < n implies #[trigger] found.indices[k] == model.indices[k] by {
        lemma_words_read_back(model.indices, bytes, istart, k);
    }
    assert(found.vertices =~= model.vertices);
    assert(found.indices =~= model.indices);
    assert(found =~= model);
}

/// The blob of a model.
pub fn encode(data: &ModelData) -> (out: Vec<u8>)
    ensures
        out@ == encoded(data@),
{
    let mut out: Vec<u8> = Vec::new();
    let (tw, th) = match &data.texture {
        Some((w, h, p)) => (*w, *h),
        None => (0, 0),
    };
    let ghost head = seq![data.vertices@.len() as u32, data.indices@.len() as u32, tw, th];
    push_word(&mut out, data.vertices.len() as u32);
    push_word(&mut out, data.indices.len() as u32);
    push_word(&mut out, tw);
    push_word(&mut out, th);
    assert(out@ =~= words_bytes(head));
    let ghost words = vertex_words(data.vertices@);
    let mut i: usize = 0;
    while i < data.vertices.len()
        invariant
            i <= data.vertices@.len(),
            words == vertex_words(data.vertices@),
            words_bytes(head).len() == 16,
            out@.len() == 16 + 32 * i,
            out@ == words_bytes(head) + words_bytes(words).take(32 * i as int),
        decreases data.vertices@.len() - i,
    {
        let v: ModelVertex = data.vertices[i];
        let ghost before = out@;
        push_word(&mut out, v.pos.x);
        push_word(&mut out, v.pos.y);
        push_word(&mut out, v.pos.z);
        push_word(&mut out, v.nrm.x);
        push_word(&mut out, v.nrm.y);
        push_word(&mut out, v.nrm.z);
        push_word(&mut out, v.uv.x);
        push_word(&mut out, v.uv.y);
        proof {
            let all = words_bytes(head) + words_bytes(words).take(32 * (i + 1));
            assert(out@.len() == all.len());
            assert forall|j: int| 0 <= j < out@.len() implies #[trigger] out@[j] == all[j] by {
                if j < before.len() {
                    assert(out@[j] == before[j]);
                } else {
                    let b = j - 16;
                    let w = b / 4;
                    assert(words_bytes(words)[b] == word_bytes(words[w])[b % 4]);
                    assert(w / 8 == i);
                    assert(words[w] == vertex_word(v, w % 8));
                }
            }
            assert(out@ =~= all);
        }
        i = i + 1;
    }
    assert(words_bytes(words).take(32 * i as int) =~= words_bytes(words));
    let ghost body = out@;
    let mut j: usize = 0;
    while j < data.indices.len()
        invariant
            j <= data.indices@.len(),
            out@ == body + words_bytes(data.indices@).take(4 * j as int),
        decreases data.indices@.len() - j,
    {
        push_word(&mut out, data.indices[j]);
        proof {
            let all = body + words_bytes(data.indices@).take(4 * (j + 1));
            assert forall|b: int| 0 <= b < 4 implies words_bytes(data.indices@)[#[trigger] (4 * j
                + b)] == word_bytes(data.indices@[j as int])[b] by {
                assert((4 * j + b) / 4 == j);
                assert((4 * j + b) % 4 == b);
            }
            assert(out@ =~= all) by {
                assert(out@.len() == all.len());
                let base = body.len() + 4 * j;
                assert forall|x: int| 0 <= x < out@.len() implies #[trigger] out@[x] == all[x] by {
                    if x >= base {
                        let b = x - base;
                        assert(words_bytes(data.indices@)[4 * j + b] == word_bytes(
                            data.indices@[j as int],
                        )[b]);
                    }
                }
            }
        }
        j = j + 1;
    }
    assert(words_bytes(data.indices@).take(4 * j as int) =~= words_bytes(data.indices@));
    if let Some((w, h, pixels)) = &data.texture {
        push_bytes(&mut out, pixels);
    }
    assert(out@ =~= encoded(data@));
    out
}

/// The model in a blob, if the blob is as long as its header says.
pub fn decode(bytes: &[u8]) -> (model: Option<ModelData>)
    ensures
        match model {
            Some(m) => decoded(bytes@) == Some(m@),
            None => decoded(bytes@) is None,
        },
{
    if bytes.len() < MODEL_HEADER_BYTES {
        return None;
    }
    let v: u32 = read_word(bytes, 0);
    let n: u32 = read_word(bytes, 4);
    let w: u32 = read_word(bytes, 8);
    let h: u32 = read_word(bytes, 12);
    assert(w * h <= 0xffff_ffff * 0xffff_ffff) by (nonlinear_arith)
        requires
            w <= 0xffff_ffff,
            h <= 0xffff_ffff,
    ;
    assert(0 <= w * h) by (nonlinear_arith);
    let end: u128 = 16 + 32 * (v as u128) + 4 * (n as u128) + 4 * (w as u128 * h as u128);
    if (bytes.len() as u128) < end {
        return None;
    }
    let istart: usize = 16 + 32 * (v as usize);
    let tstart: usize = istart + 4 * (n as usize);
    let mut vertices: Vec<ModelVertex> = Vec::new();
    let mut i: usize = 0;
    while i < v as usize
        invariant
            i <= v,
            16 + 32 * v <= bytes.len(),
            vertices@ == Seq::new(i as nat, |k: int| vertex_at(bytes@, 16 + 32 * k)),
        decreases v - i,
    {
        let at: usize = 16 + 32 * i;
        vertices.push(
            ModelVertex {
                pos: Bits3 {
                    x: read_word(bytes, at),
                    y: read_word(bytes, at + 4),
                    z: read_word(bytes, at + 8),
                },
                nrm: Bits3 {
                    x: read_word(bytes, at + 12),
                    y: read_word(bytes, at + 16),
                    z: read_word(bytes, at + 20),
                },
                uv: Bits2 { x: read_word(bytes, at + 24), y: read_word(bytes, at + 28) },
            },
        );
        i = i + 1;
        assert(vertices@ =~= Seq::new(i as nat, |k: int| vertex_at(bytes@, 16 + 32 * k)));
    }
    let mut indices: Vec<u32> = Vec::new();
    let mut j: usize = 0;
    while j < n as usize
        invariant
            j <= n,
            istart + 4 * n <= bytes.len(),
            indices@ == Seq::new(j as nat, |k: int| word_at(bytes@, istart + 4 * k)),
        decreases n - j,
    {
        indices.push(read_word(bytes, istart + 4 * j));
        j = j + 1;
        assert(indices@ =~= Seq::new(j as nat, |k: int| word_at(bytes@, istart + 4 * k)));
    }
    let texture: Option<(u32, u32, Vec<u8>)> = if w as u128 * h as u128 > 0 {
        let size: usize = (4 * (w as u128 * h as u128)) as usize;
        Some((w, h, copy_bytes(bytes, tstart, size)))
    } else {
        None
    };
    let model = ModelData { vertices, indices, texture };
    assert(model@ =~= decoded(bytes@)->0);
    Some(model)
}

/// The blob of a model starts with the counts of its vertices and of its indices and the size
/// of its texture, as four words.
pub proof fn lemma_blob_header(model: ModelView)
    requires
        portable(model),
    ensures
        word_at(encoded(model), 0) == model.vertices.len(),
        word_at(encoded(model), 4) == model.indices.len(),
        model.texture matches Some(t) ==> word_at(encoded(model), 8) == t.0 && word_at(
            encoded(model),
            12,
        ) == t.1,
        model.texture is None ==> word_at(encoded(model), 8) == 0 && word_at(encoded(model), 12)
            == 0,
{
    let blob = encoded(model);
    let (w, h, pixels) = texture_parts(model);
    let head = seq![model.vertices.len() as u32, model.indices.len() as u32, w, h];
    assert(blob.subrange(0, 16) =~= words_bytes(head));
    lemma_words_read_back(head, blob, 0, 0);
    lemma_words_read_back(head, blob, 0, 1);
    lemma_words_read_back(head, blob, 0, 2);
    lemma_words_read_back(head, blob, 0, 3);
}

/// Behind its header, the blob of a model has eight words to the vertex: three of its
/// position, three of its normal and two of its place in the texture. Then it has a word to
/// the index, and then the pixels.
pub proof fn lemma_blob_body(model: ModelView, k: int, c: int, i: int, p: int)
    requires
        portable(model),
    ensures
        ({
            let blob = encoded(model);
            let v = model.vertices.len() as int;
            let n = model.indices.len() as int;
            let vertex = model.vertices[k];
            &&& 0 <= k < v && 0 <= c < 8 ==> word_at(blob, 16 + 32 * k + 4 * c) == (if c < 3 {
                if c == 0 {
                    vertex.pos.x
                } else if c == 1 {
                    vertex.pos.y
                } else {
                    vertex.pos.z
                }
            } else if c < 6 {
                if c == 3 {
                    vertex.nrm.x
                } else if c == 4 {
                    vertex.nrm.y
                } else {
                    vertex.nrm.z
                }
            } else if c == 6 {
                vertex.uv.x
            } else {
                vertex.uv.y
            })
            &&& 0 <= i < n ==> word_at(blob, 16 + 32 * v + 4 * i) == model.indices[i]
            &&& model.texture matches Some(t) ==> 0 <= p < t.2.len() ==> blob[16 + 32 * v + 4 * n
                + p] == t.2[p]
        }),
{
    let blob = encoded(model);
    let v = model.vertices.len() as int;
    let n = model.indices.len() as int;
    let (w, h, pixels) = texture_parts(model);
    let head = seq![v as u32, n as u32, w, h];
    let words = vertex_words(model.vertices);
    let istart = 16 + 32 * v;
    assert(words_bytes(head).len() == 16);
    assert(words_bytes(words).len() == 32 * v);
    assert(words_bytes(model.indices).len() == 4 * n);
    if 0 <= k < v && 0 <= c < 8 {
        assert(blob.subrange(16, istart) =~= words_bytes(words));
        lemma_words_read_back(words, blob, 16, 8 * k + c);
        assert((8 * k + c) / 8 == k && (8 * k + c) % 8 == c);
        assert(16 + 4 * (8 * k + c) == 16 + 32 * k + 4 * c);
    }
    if 0 <= i < n {
        assert(blob.subrange(istart, istart + 4 * n) =~= words_bytes(model.indices));
        lemma_words_read_back(model.indices, blob, istart, i);
    }
}

/// A blob is a model if and only if it is long enough for a header and for all that the header
/// counts.
pub proof fn lemma_blob_long_enough(bytes: Seq<u8>)
    ensures
        decoded(bytes) is Some <==> bytes.len() >= 16 && bytes.len() >= 16 + 32 * word_at(bytes, 0)
            + 4 * word_at(bytes, 4) + 4 * (word_at(bytes, 8) * word_at(bytes, 12)),
        decoded(bytes) matches Some(model) ==> model.vertices.len() == word_at(bytes, 0)
            && model.indices.len() == word_at(bytes, 4) && (model.texture is Some <==> word_at(
            bytes,
            8,
        ) * word_at(bytes, 12) > 0),
{
}

} // verus!
