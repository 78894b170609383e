use crate::dimensions::LayerDimensions;
use crate::error::PackError;
use crate::layer::Layer;
use vstd::arithmetic::div_mod::{lemma_fundamental_div_mod, lemma_fundamental_div_mod_converse, lemma_mod_pos_bound, lemma_multiply_divide_lt};
use vstd::prelude::*;

verus! {

/// The 16 bytes every container starts with.
pub open spec fn header_bytes() -> Seq<u8> {
    seq![
        0x4Eu8, 0x53u8, 0x47u8, 0xFFu8, 0x53u8, 0x70u8, 0x61u8, 0x74u8,
        0x69u8, 0x61u8, 0x6Cu8, 0x00u8, 0x00u8, 0x00u8, 0x00u8, 0x00u8,
    ]
}

/// The tag of the dimension chunk.
pub open spec fn dimension_tag() -> Seq<u8> {
    seq![0x44u8, 0x49u8, 0x4Du8, 0xFAu8]
}

/// The tag of an attribute chunk.
pub open spec fn attribute_tag() -> Seq<u8> {
    seq![0x41u8, 0x54u8, 0x52u8, 0xFAu8]
}

/// The tag of the data chunk.
pub open spec fn data_tag() -> Seq<u8> {
    seq![0x44u8, 0x41u8, 0x54u8, 0xFAu8]
}

/// What follows the name in an attribute chunk: the terminator, the size of
/// one value in bytes, and the type code of an unsigned byte.
pub open spec fn attribute_trailer() -> Seq<u8> {
    seq![0u8, 1u8, 3u8]
}

/// The four bytes of `v`, least significant first.
pub open spec fn le32(v: u32) -> Seq<u8> {
    seq![
        (v % 256) as u8,
        ((v / 256) % 256) as u8,
        ((v / 65536) % 256) as u8,
        (v / 16777216) as u8,
    ]
}

/// Tag, width, height, and the two reserved extents, both 1.
pub open spec fn dimension_chunk(dimensions: LayerDimensions) -> Seq<u8> {
    dimension_tag() + le32(dimensions.width) + le32(dimensions.height) + le32(1) + le32(1)
}

/// Tag, name, trailer.
pub open spec fn attribute_chunk(name: Seq<u8>) -> Seq<u8> {
    attribute_tag() + name + attribute_trailer()
}

/// The attribute chunks of `layers`, one after the other in list order.
pub open spec fn attribute_chunks(layers: Seq<Layer>) -> Seq<u8>
    decreases layers.len(),
{
    if layers.len() == 0 {
        Seq::empty()
    } else {
        attribute_chunks(layers.drop_last()) + attribute_chunk(layers.last().name_bytes())
    }
}

/// The number of payload bytes for `layer_count` layers over `dimensions`.
pub open spec fn combined_len(layer_count: nat, dimensions: LayerDimensions) -> nat {
    layer_count * dimensions.spec_texel_count()
}

/// The payload byte at position `p`: texel `p / N` in row-major order, layer
/// `p % N`, red channel.
pub open spec fn payload_byte(layers: Seq<Layer>, dimensions: LayerDimensions, p: int) -> u8 {
    let texel = p / (layers.len() as int);
    layers[p % (layers.len() as int)].spec_red(
        texel % (dimensions.width as int),
        texel / (dimensions.width as int),
    )
}

/// All payload bytes: texel by texel, and within a texel layer by layer.
pub open spec fn payload(layers: Seq<Layer>, dimensions: LayerDimensions) -> Seq<u8> {
    Seq::new(combined_len(layers.len(), dimensions), |p: int| payload_byte(layers, dimensions, p))
}

/// Tag, payload length, payload.
pub open spec fn data_chunk(layers: Seq<Layer>, dimensions: LayerDimensions) -> Seq<u8> {
    data_tag() + le32(combined_len(layers.len(), dimensions) as u32) + payload(layers, dimensions)
}

/// The whole container.
pub open spec fn container(layers: Seq<Layer>, dimensions: LayerDimensions) -> Seq<u8> {
    header_bytes() + dimension_chunk(dimensions) + attribute_chunks(layers) + data_chunk(
        layers,
        dimensions,
    )
}

/// Where the attribute chunk of layer `k` begins, counted from the start of
/// the attribute chunks.
pub open spec fn attribute_offset(layers: Seq<Layer>, k: int) -> int {
    attribute_chunks(layers.take(k)).len() as int
}

/// The four bytes of `le32(v)` read back, least significant first, give `v`.
pub proof fn lemma_le32_decodes(v: u32)
    ensures
        le32(v).len() == 4,
        le32(v)[0] + 256 * le32(v)[1] + 65536 * le32(v)[2] + 16777216 * le32(v)[3] == v,
{
}

/// An attribute chunk is seven bytes longer than the name; it holds the tag,
/// the name, a zero byte, the size byte 1 and the type byte 3. Where the name
/// holds no zero byte, the terminator is the first zero byte after the tag,
/// so the name can be read back exactly.
pub proof fn lemma_attribute_chunk_shape(name: Seq<u8>)
    ensures
        attribute_chunk(name).len() == name.len() + 7,
        attribute_chunk(name).subrange(0, 4) == attribute_tag(),
        attribute_chunk(name).subrange(4, name.len() as int + 4) == name,
        attribute_chunk(name)[name.len() as int + 4] == 0,
        attribute_chunk(name)[name.len() as int + 5] == 1,
        attribute_chunk(name)[name.len() as int + 6] == 3,
        !crate::layer::has_nul(name) ==> forall|j: int|
            4 <= j < name.len() as int + 4 ==> #[trigger] attribute_chunk(name)[j] != 0,
{
    let chunk = attribute_chunk(name);
    assert(chunk.subrange(0, 4) =~= attribute_tag());
    assert(chunk.subrange(4, name.len() as int + 4) =~= name);
    if !crate::layer::has_nul(name) {
        assert forall|j: int| 4 <= j < name.len() as int + 4 implies #[trigger] chunk[j] != 0 by {
            assert(chunk[j] == name[j - 4]);
        }
    }
}

/// The attribute chunks hold one chunk per layer, in list order: the chunk
/// of layer `k` stands between its offset and the offset of the next.
pub proof fn lemma_attribute_chunk_at(layers: Seq<Layer>, k: int)
    requires
        0 <= k < layers.len(),
    ensures
        attribute_offset(layers, k + 1) == attribute_offset(layers, k) + layers[k].name_bytes().len()
            + 7,
        attribute_offset(layers, k + 1) <= attribute_chunks(layers).len(),
        attribute_chunks(layers).subrange(
            attribute_offset(layers, k),
            attribute_offset(layers, k + 1),
        ) == attribute_chunk(layers[k].name_bytes()),
    decreases layers.len(),
{
    let front = layers.drop_last();
    let head = attribute_chunks(front);
    let tail = attribute_chunk(layers.last().name_bytes());
    assert(attribute_chunks(layers) == head + tail);
    if k == layers.len() - 1 {
        assert(layers.take(k) =~= front);
        assert(layers.take(k + 1) =~= layers);
        assert((head + tail).subrange(head.len() as int, (head + tail).len() as int) =~= tail);
    } else {
        lemma_attribute_chunk_at(front, k);
        assert(layers.take(k) =~= front.take(k));
        assert(layers.take(k + 1) =~= front.take(k + 1));
        let a = attribute_offset(front, k);
        let b = attribute_offset(front, k + 1);
        assert((head + tail).subrange(a, b) =~= head.subrange(a, b));
    }
}

/// The attribute chunks of `N` layers are exactly `N` chunks: the first
/// begins at offset 0 and the last ends where the attribute bytes end.
pub proof fn lemma_attribute_chunks_tile(layers: Seq<Layer>)
    ensures
        attribute_offset(layers, 0) == 0,
        attribute_offset(layers, layers.len() as int) == attribute_chunks(layers).len(),
{
    assert(layers.take(0) =~= Seq::<Layer>::empty());
    assert(layers.take(layers.len() as int) =~= layers);
}

/// The data chunk is eight bytes longer than the payload, and the four bytes
/// after its tag are the payload's length, least significant byte first.
pub proof fn lemma_data_chunk_shape(layers: Seq<Layer>, dimensions: LayerDimensions)
    requires
        combined_len(layers.len(), dimensions) <= u32::MAX,
    ensures
        data_chunk(layers, dimensions).len() == 8 + layers.len() * dimensions.width
            * dimensions.height,
        data_chunk(layers, dimensions).subrange(0, 4) == data_tag(),
        data_chunk(layers, dimensions).subrange(4, 8) == le32(
            (layers.len() * dimensions.width * dimensions.height) as u32,
        ),
        data_chunk(layers, dimensions).subrange(8, data_chunk(layers, dimensions).len() as int)
            == payload(layers, dimensions),
{
    let chunk = data_chunk(layers, dimensions);
    let size = combined_len(layers.len(), dimensions);
    assert(layers.len() * dimensions.width * dimensions.height == layers.len() * (dimensions.width
        * dimensions.height)) by (nonlinear_arith);
    assert(chunk.subrange(0, 4) =~= data_tag());
    assert(chunk.subrange(4, 8) =~= le32(size as u32));
    assert(chunk.subrange(8, chunk.len() as int) =~= payload(layers, dimensions));
}

/// With `N` layers, the payload byte at position `i * N + k` is the red
/// channel of layer `k` at the pixel in column `i mod width` and row
/// `i div width`.
pub proof fn lemma_payload_interleaving(
    layers: Seq<Layer>,
    dimensions: LayerDimensions,
    i: int,
    k: int,
)
    requires
        0 <= i < dimensions.spec_texel_count(),
        0 <= k < layers.len(),
    ensures
        0 <= i * layers.len() + k < payload(layers, dimensions).len(),
        payload(layers, dimensions)[i * layers.len() + k] == layers[k].spec_red(
            i % (dimensions.width as int),
            i / (dimensions.width as int),
        ),
        data_chunk(layers, dimensions)[8 + i * layers.len() + k] == payload(
            layers,
            dimensions,
        )[i * layers.len() + k],
{
    let n = layers.len() as int;
    let texels = dimensions.spec_texel_count() as int;
    let p = i * n + k;
    assert(0 <= p < n * texels) by (nonlinear_arith)
        requires
            p == i * n + k,
            0 <= i < texels,
            0 <= k < n,
    ;
    lemma_fundamental_div_mod_converse(p, n, i, k);
    assert(payload(layers, dimensions)[p] == payload_byte(layers, dimensions, p));
}

/// Where layer `m` stands after the layers `j` and `k` have changed places.
pub open spec fn exchanged(j: int, k: int, m: int) -> int {
    if m == j {
        k
    } else if m == k {
        j
    } else {
        m
    }
}

/// Exchanging two layers of the list exchanges their bytes in every texel
/// of the payload, and moves no other byte.
pub proof fn lemma_exchanged_layers_exchange_bytes(
    layers: Seq<Layer>,
    other: Seq<Layer>,
    dimensions: LayerDimensions,
    j: int,
    k: int,
    i: int,
    m: int,
)
    requires
        0 <= j < layers.len(),
        0 <= k < layers.len(),
        other.len() == layers.len(),
        forall|l: int| 0 <= l < layers.len() ==> #[trigger] other[l] == layers[exchanged(j, k, l)],
        0 <= i < dimensions.spec_texel_count(),
        0 <= m < layers.len(),
    ensures
        payload(other, dimensions)[i * layers.len() + m] == payload(layers, dimensions)[i
            * layers.len() + exchanged(j, k, m)],
{
    lemma_payload_interleaving(other, dimensions, i, m);
    lemma_payload_interleaving(layers, dimensions, i, exchanged(j, k, m));
    assert(other[m] == layers[exchanged(j, k, m)]);
}

/// What is serialized depends on the layers' names and pixels and on the
/// dimensions alone: equal inputs give the same bytes.
pub proof fn lemma_container_deterministic(
    first: Seq<Layer>,
    second: Seq<Layer>,
    dimensions: LayerDimensions,
)
    requires
        first.len() == second.len(),
        forall|k: int| 0 <= k < first.len() ==> (#[trigger] first[k]).same_as(second[k]),
    ensures
        attribute_chunks(first) == attribute_chunks(second),
        data_chunk(first, dimensions) == data_chunk(second, dimensions),
        container(first, dimensions) == container(second, dimensions),
    decreases first.len(),
{
    if first.len() > 0 {
        assert(first.last().same_as(second.last()));
        assert forall|k: int| 0 <= k < first.drop_last().len() implies (#[trigger] first.drop_last()[k]).same_as(
            second.drop_last()[k],
        ) by {
            assert(first[k].same_as(second[k]));
        }
        lemma_container_deterministic(first.drop_last(), second.drop_last(), dimensions);
    }
    let n = first.len() as int;
    assert forall|p: int| 0 <= p < combined_len(first.len(), dimensions) implies payload_byte(
        first,
        dimensions,
        p,
    ) == payload_byte(second, dimensions, p) by {
        if n > 0 {
            lemma_mod_pos_bound(p, n);
            assert(first[p % n].same_as(second[p % n]));
        } else {
            assert(combined_len(first.len(), dimensions) == 0) by (nonlinear_arith)
                requires
                    first.len() == 0,
            ;
        }
    }
    assert(payload(first, dimensions) =~= payload(second, dimensions));
}

fn append(dst: &mut Vec<u8>, src: &[u8])
    ensures
        final(dst)@ == old(dst)@ + src@,
{
    let mut i: usize = 0;
    while i < src.len()
        invariant
            i <= src.len(),
            dst@ == old(dst)@ + src@.subrange(0, i as int),
        decreases src.len() - i,
    {
        dst.push(src[i]);
        i = i + 1;
        assert(dst@ =~= old(dst)@ + src@.subrange(0, i as int));
    }
    assert(src@.subrange(0, src.len() as int) =~= src@);
}

fn push_le32(dst: &mut Vec<u8>, v: u32)
    ensures
        final(dst)@ == old(dst)@ + le32(v),
{
    dst.push((v % 256) as u8);
    dst.push(((v / 256) % 256) as u8);
    dst.push(((v / 65536) % 256) as u8);
    dst.push((v / 16777216) as u8);
    assert(dst@ =~= old(dst)@ + le32(v));
}

fn push_tag(dst: &mut Vec<u8>, a: u8, b: u8, c: u8, d: u8)
    ensures
        final(dst)@ == old(dst)@ + seq![a, b, c, d],
{
    dst.push(a);
    dst.push(b);
    dst.push(c);
    dst.push(d);
    assert(dst@ =~= old(dst)@ + seq![a, b, c, d]);
}

/// The fixed header.
pub fn header() -> (bytes: Vec<u8>)
    ensures
        bytes@ == header_bytes(),
        bytes@.len() == 16,
{
    let mut bytes: Vec<u8> = Vec::new();
    push_tag(&mut bytes, 0x4E, 0x53, 0x47, 0xFF);
    push_tag(&mut bytes, 0x53, 0x70, 0x61, 0x74);
    push_tag(&mut bytes, 0x69, 0x61, 0x6C, 0x00);
    push_tag(&mut bytes, 0x00, 0x00, 0x00, 0x00);
    assert(bytes@ =~= header_bytes());
    bytes
}

/// The dimension chunk, 20 bytes.
pub fn make_dimensions_bytes(dimensions: &LayerDimensions) -> (bytes: Vec<u8>)
    ensures
        bytes@ == dimension_chunk(*dimensions),
        bytes@.len() == 20,
{
    let mut bytes: Vec<u8> = Vec::new();
    push_tag(&mut bytes, 0x44, 0x49, 0x4D, 0xFA);
    push_le32(&mut bytes, dimensions.width);
    push_le32(&mut bytes, dimensions.height);
    push_le32(&mut bytes, 1);
    push_le32(&mut bytes, 1);
    assert(bytes@ =~= dimension_chunk(*dimensions));
    bytes
}

/// One attribute chunk per layer, in list order.
pub fn make_attribute_bytes(layers: &[Layer]) -> (bytes: Vec<u8>)
    ensures
        bytes@ == attribute_chunks(layers@),
{
    let mut bytes: Vec<u8> = Vec::new();
    let mut k: usize = 0;
    while k < layers.len()
        invariant
            k <= layers.len(),
            bytes@ == attribute_chunks(layers@.take(k as int)),
        decreases layers.len() - k,
    {
        let ghost before = bytes@;
        push_tag(&mut bytes, 0x41, 0x54, 0x52, 0xFA);
        append(&mut bytes, layers[k].name.as_str().as_bytes());
        bytes.push(0);
        bytes.push(1);
        bytes.push(3);
        proof {
            let next = layers@.take(k + 1);
            assert(next.drop_last() =~= layers@.take(k as int));
            assert(next.last() == layers@[k as int]);
            assert(bytes@ =~= before + attribute_chunk(layers@[k as int].name_bytes()));
        }
        k = k + 1;
    }
    assert(layers@.take(layers.len() as int) =~= layers@);
    bytes
}

/// The payload length as the data chunk's length field holds it, unless it
/// does not fit in 32 bits.
pub fn combined_size(layer_count: usize, dimensions: &LayerDimensions) -> (size: Result<
    u32,
    PackError,
>)
    requires
        dimensions.wf(),
    ensures
        match size {
            Ok(n) => n == combined_len(layer_count as nat, *dimensions),
            Err(e) => e == PackError::SizeOverflowError && combined_len(
                layer_count as nat,
                *dimensions,
            ) > u32::MAX,
        },
{
    proof {
        dimensions.lemma_texel_count_bounds();
    }
    let texels: usize = dimensions.get_texel_count();
    let limit: usize = 0xFFFF_FFFFusize / texels;
    proof {
        lemma_fundamental_div_mod(0xFFFF_FFFF, texels as int);
        lemma_mod_pos_bound(0xFFFF_FFFF, texels as int);
    }
    if layer_count > limit {
        proof {
            assert(layer_count * texels >= (limit + 1) * texels) by (nonlinear_arith)
                requires
                    layer_count >= limit + 1,
                    texels >= 1,
            ;
            assert((limit + 1) * texels == texels * limit + texels) by (nonlinear_arith);
        }
        Err(PackError::SizeOverflowError)
    } else {
        proof {
            assert(0 <= layer_count * texels <= texels * limit) by (nonlinear_arith)
                requires
                    0 <= layer_count <= limit,
                    texels >= 1,
            ;
        }
        Ok((layer_count * texels) as u32)
    }
}

/// The data chunk: for each texel in row-major order, the red channel of
/// each layer in list order.
pub fn make_data_bytes(layers: &[Layer], dimensions: &LayerDimensions) -> (chunk: Result<
    Vec<u8>,
    PackError,
>)
    requires
        dimensions.wf(),
        forall|k: int| 0 <= k < layers@.len() ==> (#[trigger] layers@[k]).fits(*dimensions),
    ensures
        match chunk {
            Ok(bytes) => combined_len(layers@.len(), *dimensions) <= u32::MAX && bytes@
                == data_chunk(layers@, *dimensions),
            Err(e) => e == PackError::SizeOverflowError && combined_len(
                layers@.len(),
                *dimensions,
            ) > u32::MAX,
        },
{
    let n: usize = layers.len();
    let size: u32 = match combined_size(n, dimensions) {
        Ok(size) => size,
        Err(e) => {
            return Err(e);
        },
    };
    let mut bytes: Vec<u8> = Vec::new();
    push_tag(&mut bytes, 0x44, 0x41, 0x54, 0xFA);
    push_le32(&mut bytes, size);
    let ghost prefix = bytes@;
    proof {
        dimensions.lemma_texel_count_bounds();
        assert(prefix =~= data_tag() + le32(size));
    }
    let texels: usize = dimensions.get_texel_count();
    let width: usize = dimensions.width as usize;
    let mut i: usize = 0;
    while i < texels
        invariant
            i <= texels,
            texels == dimensions.spec_texel_count(),
            texels == dimensions.width * dimensions.height,
            n == layers@.len(),
            width == dimensions.width,
            1 <= width <= 4096,
            dimensions.wf(),
            forall|k: int| 0 <= k < layers@.len() ==> (#[trigger] layers@[k]).fits(*dimensions),
            prefix.len() == 8,
            bytes@.len() == 8 + i * n,
            bytes@.subrange(0, 8) == prefix,
            forall|p: int|
                0 <= p < i * n ==> #[trigger] bytes@[8 + p] == payload_byte(
                    layers@,
                    *dimensions,
                    p,
                ),
        decreases texels - i,
    {
        proof {
            lemma_multiply_divide_lt(i as int, width as int, dimensions.height as int);
            lemma_mod_pos_bound(i as int, width as int);
        }
        let x: u32 = (i % width) as u32;
        let y: u32 = (i / width) as u32;
        let mut k: usize = 0;
        while k < n
            invariant
                k <= n,
                i < texels,
                n == layers@.len(),
                width == dimensions.width,
                x == i % width,
                y == i / width,
                x < dimensions.width,
                y < dimensions.height,
                forall|k: int| 0 <= k < layers@.len() ==> (#[trigger] layers@[k]).fits(*dimensions),
                prefix.len() == 8,
                bytes@.len() == 8 + i * n + k,
                bytes@.subrange(0, 8) == prefix,
                forall|p: int|
                    0 <= p < i * n + k ==> #[trigger] bytes@[8 + p] == payload_byte(
                        layers@,
                        *dimensions,
                        p,
                    ),
            decreases n - k,
        {
            let red: u8 = layers[k].red_at(x, y);
            let ghost before = bytes@;
            proof {
                lemma_fundamental_div_mod_converse(i * n + k, n as int, i as int, k as int);
                assert(red == payload_byte(layers@, *dimensions, i * n + k));
            }
            bytes.push(red);
            proof {
                assert(bytes@.subrange(0, 8) =~= before.subrange(0, 8));
                assert forall|p: int| 0 <= p < i * n + k + 1 implies #[trigger] bytes@[8 + p]
                    == payload_byte(layers@, *dimensions, p) by {
                    if p < i * n + k {
                        assert(bytes@[8 + p] == before[8 + p]);
                    }
                }
            }
            k = k + 1;
        }
        proof {
            assert(i * n + n == (i + 1) * n) by (nonlinear_arith);
        }
        i = i + 1;
    }
    proof {
        assert(texels * n == n * texels) by (nonlinear_arith);
        let want = data_chunk(layers@, *dimensions);
        assert(bytes@.len() == want.len());
        assert forall|j: int| 0 <= j < bytes@.len() implies bytes@[j] == want[j] by {
            if j < 8 {
                assert(bytes@[j] == bytes@.subrange(0, 8)[j]);
            } else {
                assert(bytes@[8 + (j - 8)] == payload_byte(layers@, *dimensions, j - 8));
            }
        }
        assert(bytes@ =~= want);
    }
    Ok(bytes)
}

/// The whole container: header, dimension chunk, attribute chunks, data
/// chunk.
pub fn make_binary(layers: &[Layer], dimensions: &LayerDimensions) -> (file: Result<
    Vec<u8>,
    PackError,
>)
    requires
        dimensions.wf(),
        forall|k: int| 0 <= k < layers@.len() ==> (#[trigger] layers@[k]).fits(*dimensions),
    ensures
        match file {
            Ok(bytes) => combined_len(layers@.len(), *dimensions) <= u32::MAX && bytes@
                == container(layers@, *dimensions),
            Err(e) => e == PackError::SizeOverflowError && combined_len(
                layers@.len(),
                *dimensions,
            ) > u32::MAX,
        },
{
    let data_bytes: Vec<u8> = match make_data_bytes(layers, dimensions) {
        Ok(data_bytes) => data_bytes,
        Err(e) => {
            return Err(e);
        },
    };
    let mut bytes: Vec<u8> = header();
    let dimensions_bytes: Vec<u8> = make_dimensions_bytes(dimensions);
    append(&mut bytes, dimensions_bytes.as_slice());
    let attribute_bytes: Vec<u8> = make_attribute_bytes(layers);
    append(&mut bytes, attribute_bytes.as_slice());
    append(&mut bytes, data_bytes.as_slice());
    Ok(bytes)
}

} // verus!
