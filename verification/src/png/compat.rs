//! A libpng-shaped facade over the reader and writer: read and write
//! structs, transforms and warnings.
use vstd::prelude::*;
use super::types::{
    IhdrColorType, PngCompatInfo, PngCompatTransform, PngCompatUnknownChunkPolicy, PngCompatibilityWarning,
    PngDocument, PngImage, PngImageModel, PngIndexedImage, PngParseError, ChunkModel,
};
use super::decode::decode_spec;
use super::document::{decode_png_document, document_decodes, document_from_chunks, document_view, DocumentModel, rows_of};
use super::encode;
use super::encode_doc;
use super::encode_meta;
use super::unfilter::saturate;

verus! {

/// A warning queued for the reader's warning handler.
pub open spec fn push_unique(ws: Seq<PngCompatibilityWarning>, w: PngCompatibilityWarning) -> Seq<PngCompatibilityWarning> {
    if ws.contains(w) { ws } else { ws.push(w) }
}

fn contains_warning(ws: &Vec<PngCompatibilityWarning>, w: PngCompatibilityWarning) -> (r: bool)
    ensures
        r == ws@.contains(w),
{
    let mut i: usize = 0;
    while i < ws.len()
        invariant
            i <= ws@.len(),
            forall|k: int| 0 <= k < i ==> ws@[k] != w,
        decreases ws@.len() - i,
    {
        if ws[i] == w {
            assert(ws@[i as int] == w);
            return true;
        }
        i = i + 1;
    }
    false
}

fn contains_transform(ts: &Vec<PngCompatTransform>, t: PngCompatTransform) -> (r: bool)
    ensures
        r == ts@.contains(t),
{
    let mut i: usize = 0;
    while i < ts.len()
        invariant
            i <= ts@.len(),
            forall|k: int| 0 <= k < i ==> ts@[k] != t,
        decreases ts@.len() - i,
    {
        if ts[i] == t {
            assert(ts@[i as int] == t);
            return true;
        }
        i = i + 1;
    }
    false
}

/// The state of the compatibility reader.
#[derive(Debug, Default)]
pub struct PngCompatReadStruct {
    input: Vec<u8>,
    document: Option<PngDocument>,
    transforms: Vec<PngCompatTransform>,
    warnings: Vec<PngCompatibilityWarning>,
    handler_installed: bool,
    notifications: Vec<PngCompatibilityWarning>,
}

/// The reader's state, as values.
pub struct ReadModel {
    pub input: Seq<u8>,
    pub document: Option<DocumentModel>,
    pub transforms: Seq<PngCompatTransform>,
    pub warnings: Seq<PngCompatibilityWarning>,
    pub handler_installed: bool,
    pub notifications: Seq<PngCompatibilityWarning>,
}

impl View for PngCompatReadStruct {
    type V = ReadModel;

    closed spec fn view(&self) -> ReadModel {
        ReadModel {
            input: self.input@,
            document: match self.document {
                Some(d) => Some(d@),
                None => None,
            },
            transforms: self.transforms@,
            warnings: self.warnings@,
            handler_installed: self.handler_installed,
            notifications: self.notifications@,
        }
    }
}

/// The reader after recording a warning: it is kept once, and queued for
/// the handler when one is installed.
pub open spec fn warned(m: ReadModel, w: PngCompatibilityWarning) -> ReadModel {
    if m.warnings.contains(w) {
        m
    } else {
        ReadModel {
            warnings: m.warnings.push(w),
            notifications: if m.handler_installed { m.notifications.push(w) } else { m.notifications },
            ..m
        }
    }
}

impl PngCompatReadStruct {
    fn push_warning(&mut self, w: PngCompatibilityWarning)
        ensures
            final(self)@ == warned(old(self)@, w),
    {
        if !contains_warning(&self.warnings, w) {
            self.warnings.push(w);
            if self.handler_installed {
                self.notifications.push(w);
            }
        }
    }

    fn add_transform(&mut self, t: PngCompatTransform)
        ensures
            final(self)@ == (ReadModel { transforms: push_transform(old(self)@.transforms, t), document: None, ..old(self)@ }),
    {
        if !contains_transform(&self.transforms, t) {
            self.transforms.push(t);
        }
        self.document = None;
    }
}

/// A transform added once.
pub open spec fn push_transform(ts: Seq<PngCompatTransform>, t: PngCompatTransform) -> Seq<PngCompatTransform> {
    if ts.contains(t) { ts } else { ts.push(t) }
}

/// A new reader: no input, no transforms, and the two facade notices.
pub fn png_compat_create_read_struct() -> (r: PngCompatReadStruct)
    ensures
        r@ == (ReadModel {
            input: Seq::empty(),
            document: None,
            transforms: Seq::empty(),
            warnings: seq![PngCompatibilityWarning::RustNativeFacadeOnly, PngCompatibilityWarning::CAbiNotProvided],
            handler_installed: false,
            notifications: Seq::empty(),
        }),
{
    let r = PngCompatReadStruct {
        input: Vec::new(),
        document: None,
        transforms: Vec::new(),
        warnings: vec![PngCompatibilityWarning::RustNativeFacadeOnly, PngCompatibilityWarning::CAbiNotProvided],
        handler_installed: false,
        notifications: Vec::new(),
    };
    assert(r@.warnings =~= seq![PngCompatibilityWarning::RustNativeFacadeOnly, PngCompatibilityWarning::CAbiNotProvided]);
    r
}

/// Replaces the reader's input and forgets what was read.
pub fn png_compat_set_read_buffer(reader: &mut PngCompatReadStruct, input: &[u8])
    ensures
        final(reader)@ == (ReadModel { input: input@, document: None, ..old(reader)@ }),
{
    reader.input = vstd::slice::slice_to_vec(input);
    reader.document = None;
}

/// Asks for 16-bit samples to be cut to their high byte.
pub fn png_compat_set_strip_16(reader: &mut PngCompatReadStruct)
    ensures
        final(reader)@ == (ReadModel { transforms: push_transform(old(reader)@.transforms, PngCompatTransform::Strip16), document: None, ..old(reader)@ }),
{
    reader.add_transform(PngCompatTransform::Strip16);
}

/// Asks for grayscale below eight bits to be reported as eight-bit.
pub fn png_compat_set_expand_gray_1_2_4_to_8(reader: &mut PngCompatReadStruct)
    ensures
        final(reader)@ == (ReadModel { transforms: push_transform(old(reader)@.transforms, PngCompatTransform::ExpandGrayTo8), document: None, ..old(reader)@ }),
{
    reader.add_transform(PngCompatTransform::ExpandGrayTo8);
}

/// Asks for palette images to be reported as RGB or RGBA.
pub fn png_compat_set_palette_to_rgb(reader: &mut PngCompatReadStruct)
    ensures
        final(reader)@ == (ReadModel { transforms: push_transform(old(reader)@.transforms, PngCompatTransform::PaletteToRgb), document: None, ..old(reader)@ }),
{
    reader.add_transform(PngCompatTransform::PaletteToRgb);
}

/// Asks for tRNS transparency to be reported as an alpha channel.
pub fn png_compat_set_trns_to_alpha(reader: &mut PngCompatReadStruct)
    ensures
        final(reader)@ == (ReadModel { transforms: push_transform(old(reader)@.transforms, PngCompatTransform::TrnsToAlpha), document: None, ..old(reader)@ }),
{
    reader.add_transform(PngCompatTransform::TrnsToAlpha);
}

/// Installs a warning handler: from now on each new warning is also queued
/// for it (`png_compat_take_warning_notifications`), starting with the
/// notice that handlers are a Rust-side feature.
pub fn png_compat_set_warning_handler(reader: &mut PngCompatReadStruct)
    ensures
        final(reader)@ == warned(ReadModel { handler_installed: true, ..old(reader)@ }, PngCompatibilityWarning::WarningCallbackRustOnly),
{
    reader.handler_installed = true;
    reader.push_warning(PngCompatibilityWarning::WarningCallbackRustOnly);
}

/// Hands out the warnings queued for the handler, in order, and empties
/// the queue.
pub fn png_compat_take_warning_notifications(reader: &mut PngCompatReadStruct) -> (r: Vec<PngCompatibilityWarning>)
    ensures
        r@ == old(reader)@.notifications,
        final(reader)@ == (ReadModel { notifications: Seq::empty(), ..old(reader)@ }),
{
    let mut taken: Vec<PngCompatibilityWarning> = Vec::new();
    std::mem::swap(&mut taken, &mut reader.notifications);
    taken
}

/// An image after one transform, and whether the transform applied.
pub open spec fn transform_image(img: PngImageModel, t: PngCompatTransform) -> (PngImageModel, bool) {
    let pc = img.width * img.height;
    match t {
        PngCompatTransform::Strip16 => if img.bit_depth != 16 {
            (img, false)
        } else {
            (PngImageModel {
                bit_depth: 8,
                pixels: Seq::new(img.pixels.len() / 2, |i: int| img.pixels[2 * i]),
                ..img
            }, true)
        },
        PngCompatTransform::ExpandGrayTo8 => if img.color_type != IhdrColorType::Grayscale || img.bit_depth >= 8 {
            (img, false)
        } else {
            (PngImageModel { bit_depth: 8, ..img }, true)
        },
        PngCompatTransform::PaletteToRgb => if img.color_type != IhdrColorType::Indexed {
            (img, false)
        } else {
            (PngImageModel {
                color_type: if pc > 0 && img.pixels.len() == pc * 4 { IhdrColorType::TruecolorAlpha } else { IhdrColorType::Truecolor },
                bit_depth: 8,
                ..img
            }, true)
        },
        PngCompatTransform::TrnsToAlpha => if img.color_type == IhdrColorType::Grayscale && img.pixels.len() == pc * 2 {
            (PngImageModel { color_type: IhdrColorType::GrayscaleAlpha, bit_depth: 8, ..img }, true)
        } else if (img.color_type == IhdrColorType::Truecolor || img.color_type == IhdrColorType::Indexed) && img.pixels.len() == pc * 4 {
            (PngImageModel { color_type: IhdrColorType::TruecolorAlpha, bit_depth: 8, ..img }, true)
        } else {
            (img, false)
        },
    }
}

/// The image after the first `n` transforms, and the notices of those that
/// applied.
pub open spec fn transformed(img: PngImageModel, ts: Seq<PngCompatTransform>, n: int) -> (PngImageModel, Seq<PngCompatibilityWarning>)
    decreases n,
{
    if n <= 0 {
        (img, Seq::empty())
    } else {
        let (i, ws) = transformed(img, ts, n - 1);
        let (j, applied) = transform_image(i, ts[n - 1]);
        (j, if applied { ws.push(PngCompatibilityWarning::TransformApplied { transform: ts[n - 1] }) } else { ws })
    }
}

fn pixel_count(image: &PngImage) -> (r: u64)
    ensures
        r == image.width * image.height,
{
    assert((image.width as u64) * (image.height as u64) <= 0xffff_ffff * 0xffff_ffff) by (nonlinear_arith)
        requires
            image.width <= 0xffff_ffff,
            image.height <= 0xffff_ffff,
    ;
    (image.width as u64) * (image.height as u64)
}

fn is_grayscale(c: IhdrColorType) -> (r: bool)
    ensures
        r == (c == IhdrColorType::Grayscale),
{
    match c {
        IhdrColorType::Grayscale => true,
        _ => false,
    }
}

fn is_indexed(c: IhdrColorType) -> (r: bool)
    ensures
        r == (c == IhdrColorType::Indexed),
{
    match c {
        IhdrColorType::Indexed => true,
        _ => false,
    }
}

fn is_truecolor(c: IhdrColorType) -> (r: bool)
    ensures
        r == (c == IhdrColorType::Truecolor),
{
    match c {
        IhdrColorType::Truecolor => true,
        _ => false,
    }
}

/// Applies one transform to an image.
fn apply_transform(image: &mut PngImage, t: PngCompatTransform) -> (r: bool)
    ensures
        (final(image)@, r) == transform_image(old(image)@, t),
{
    let pc = pixel_count(image);
    let len = image.pixels.len() as u64;
    match t {
        PngCompatTransform::Strip16 => {
            if image.bit_depth != 16 {
                return false;
            }
            let plen = image.pixels.len();
            let n = plen / 2;
            let mut out: Vec<u8> = Vec::new();
            let mut i: usize = 0;
            while i < n
                invariant
                    n == image.pixels@.len() / 2,
                    plen == image.pixels@.len(),
                    i <= n,
                    out@.len() == i,
                    forall|k: int| 0 <= k < i ==> #[trigger] out@[k] == image.pixels@[2 * k],
                decreases n - i,
            {
                out.push(image.pixels[2 * i]);
                i = i + 1;
            }
            assert(out@ =~= Seq::new(old(image)@.pixels.len() / 2, |i: int| old(image)@.pixels[2 * i]));
            image.pixels = out;
            image.bit_depth = 8;
            true
        },
        PngCompatTransform::ExpandGrayTo8 => {
            if !is_grayscale(image.color_type) || image.bit_depth >= 8 {
                return false;
            }
            image.bit_depth = 8;
            true
        },
        PngCompatTransform::PaletteToRgb => {
            if !is_indexed(image.color_type) {
                return false;
            }
            image.color_type = if pc > 0 && pc <= 0x3fff_ffff_ffff_ffff && len == pc * 4 {
                IhdrColorType::TruecolorAlpha
            } else {
                IhdrColorType::Truecolor
            };
            image.bit_depth = 8;
            true
        },
        PngCompatTransform::TrnsToAlpha => {
            if is_grayscale(image.color_type) && pc <= 0x7fff_ffff_ffff_ffff && len == pc * 2 {
                image.color_type = IhdrColorType::GrayscaleAlpha;
                image.bit_depth = 8;
                true
            } else if (is_truecolor(image.color_type) || is_indexed(image.color_type)) && pc <= 0x3fff_ffff_ffff_ffff && len == pc * 4 {
                image.color_type = IhdrColorType::TruecolorAlpha;
                image.bit_depth = 8;
                true
            } else {
                false
            }
        },
    }
}

/// What `png_compat_read_info` reports of a document.
pub open spec fn info_of(d: DocumentModel) -> PngCompatInfo {
    PngCompatInfo {
        width: d.image.width,
        height: d.image.height,
        bit_depth: d.image.bit_depth,
        color_type: d.image.color_type,
        rowbytes: if d.image.height == 0 { 0 } else { (d.image.pixels.len() / (d.image.height as nat)) as usize },
        text_chunk_count: saturate(
            (d.metadata.text_chunks.len() + d.metadata.compressed_text_chunks.len() + d.metadata.international_text_chunks.len()) as int,
        ),
        unknown_ancillary_count: d.unknown_ancillary_chunks.len() as usize,
    }
}

/// The reader after recording each warning in turn.
pub open spec fn warned_all(m: ReadModel, ws: Seq<PngCompatibilityWarning>, n: int) -> ReadModel
    decreases n,
{
    if n <= 0 { m } else { warned(warned_all(m, ws, n - 1), ws[n - 1]) }
}

fn info_from_document(document: &PngDocument) -> (r: PngCompatInfo)
    ensures
        r == info_of(document@),
{
    let h = document.image.height as usize;
    let rowbytes = if h == 0 { 0 } else { document.image.pixels.len() / h };
    let a = document.metadata.text_chunks.len();
    let b = document.metadata.compressed_text_chunks.len();
    let c = document.metadata.international_text_chunks.len();
    let ab = a.saturating_add(b);
    let abc = ab.saturating_add(c);
    assert(abc == saturate(a + b + c));
    PngCompatInfo {
        width: document.image.width,
        height: document.image.height,
        bit_depth: document.image.bit_depth,
        color_type: document.image.color_type,
        rowbytes,
        text_chunk_count: abc,
        unknown_ancillary_count: document.unknown_ancillary_chunks.len(),
    }
}

/// `r` and the reader `after` are what reading the info from `before`
/// gives: the decoded document with the transforms applied, a notice for
/// each transform that applied, and the image's layout.
pub open spec fn read_info_outcome(before: ReadModel, after: ReadModel, r: Result<PngCompatInfo, PngParseError>) -> bool {
    match r {
        Ok(info) => exists|d: DocumentModel|
            #[trigger] document_decodes(before.input, Ok::<DocumentModel, PngParseError>(d))
                && ({
                    let (img, ws) = transformed(d.image, before.transforms, before.transforms.len() as int);
                    let d2 = DocumentModel { image: img, ..d };
                    &&& info == info_of(d2)
                    &&& after == (ReadModel { document: Some(d2), ..warned_all(before, ws, ws.len() as int) })
                }),
        Err(e) => document_decodes(before.input, Err::<DocumentModel, PngParseError>(e)) && after == before,
    }
}

/// Decodes the input as a document, applies the transforms, records a
/// notice for each that applied, and reports the image's layout.
pub fn png_compat_read_info(reader: &mut PngCompatReadStruct) -> (r: Result<PngCompatInfo, PngParseError>)
    ensures
        read_info_outcome(old(reader)@, final(reader)@, r),
{
    let ghost m0 = reader@;
    let mut document = match decode_png_document(reader.input.as_slice()) {
        Ok(d) => d,
        Err(e) => return Err(e),
    };
    let ghost d = document@;
    let ghost ts = m0.transforms;
    let mut applied: Vec<PngCompatibilityWarning> = Vec::new();
    let mut i: usize = 0;
    while i < reader.transforms.len()
        invariant
            ts == reader.transforms@,
            i <= ts.len(),
            transformed(d.image, ts, i as int) == (document.image@, applied@),
            document@ == (DocumentModel { image: document.image@, ..d }),
        decreases ts.len() - i,
    {
        let t = reader.transforms[i];
        let did = apply_transform(&mut document.image, t);
        if did {
            applied.push(PngCompatibilityWarning::TransformApplied { transform: t });
        }
        i = i + 1;
    }
    let ghost ws = applied@;
    let mut k: usize = 0;
    while k < applied.len()
        invariant
            ws == applied@,
            k <= ws.len(),
            reader@ == warned_all(m0, ws, k as int),
        decreases ws.len() - k,
    {
        reader.push_warning(applied[k]);
        k = k + 1;
    }
    let info = info_from_document(&document);
    reader.document = Some(document);
    assert(document_decodes(m0.input, Ok::<DocumentModel, PngParseError>(d)));
    Ok(info)
}

/// The rows of an image, `pixels.len() / height` bytes each; an image with
/// fewer pixel bytes than rows is refused.
pub open spec fn image_rows(img: PngImageModel) -> Result<Seq<Seq<u8>>, PngParseError> {
    let rl = if img.height == 0 { 0 } else { (img.pixels.len() as int) / (img.height as int) };
    if rl == 0 {
        Err(PngParseError::InvalidImageDataLength { expected: img.height as usize, actual: img.pixels.len() as usize })
    } else {
        Ok(Seq::new(((img.pixels.len() as int) / rl) as nat, |i: int| img.pixels.subrange(i * rl, i * rl + rl)))
    }
}

/// The rows of a result, as values.
pub open spec fn rows_view(r: Result<Vec<Vec<u8>>, PngParseError>) -> Result<Seq<Seq<u8>>, PngParseError> {
    match r {
        Ok(v) => Ok(v@.map_values(|row: Vec<u8>| row@)),
        Err(e) => Err(e),
    }
}

fn image_rows_of(image: &PngImage) -> (r: Result<Vec<Vec<u8>>, PngParseError>)
    ensures
        rows_view(r) == image_rows(image@),
{
    let h = image.height as usize;
    let plen = image.pixels.len();
    let rl = if h == 0 { 0 } else { plen / h };
    if rl == 0 {
        return Err(PngParseError::InvalidImageDataLength { expected: h, actual: plen });
    }
    let n = plen / rl;
    let mut rows: Vec<Vec<u8>> = Vec::new();
    let mut i: usize = 0;
    let ghost target = image_rows(image@)->Ok_0;
    while i < n
        invariant
            rl > 0,
            plen == image.pixels@.len(),
            n == (plen as int) / (rl as int),
            target == Seq::new(((plen as int) / (rl as int)) as nat, |i: int| image.pixels@.subrange(i * rl, i * rl + rl)),
            i <= n,
            rows@.len() == i,
            forall|k: int| 0 <= k < i ==> #[trigger] rows@[k]@ == target[k],
        decreases n - i,
    {
        assert((i + 1) * rl <= plen) by (nonlinear_arith)
            requires
                i < n,
                n == (plen as int) / (rl as int),
                rl > 0,
        ;
        assert(i * rl + rl == (i + 1) * rl) by (nonlinear_arith);
        let start = i * rl;
        let row = vstd::slice::slice_to_vec(&image.pixels.as_slice()[start..start + rl]);
        rows.push(row);
        i = i + 1;
    }
    assert(rows@.map_values(|row: Vec<u8>| row@) =~= target);
    Ok(rows)
}

/// Reads the info first when it has not been read, then hands out the rows
/// of the (transformed) image.
pub fn png_compat_read_image(reader: &mut PngCompatReadStruct) -> (r: Result<Vec<Vec<u8>>, PngParseError>)
    ensures
        match old(reader)@.document {
            Some(d) => final(reader)@ == old(reader)@ && rows_view(r) == image_rows(d.image),
            None => exists|ir: Result<PngCompatInfo, PngParseError>|
                #[trigger] read_info_outcome(old(reader)@, final(reader)@, ir) && match ir {
                    Err(e) => r == Err::<Vec<Vec<u8>>, PngParseError>(e),
                    Ok(_) => final(reader)@.document matches Some(d) && rows_view(r) == image_rows(d.image),
                },
        },
{
    let ghost m0 = reader@;
    if reader.document.is_none() {
        let ir = png_compat_read_info(reader);
        match ir {
            Err(e) => {
                assert(read_info_outcome(m0, reader@, ir));
                return Err(e);
            },
            Ok(_) => {},
        }
        let r = match &reader.document {
            Some(d) => image_rows_of(&d.image),
            None => Err(PngParseError::MissingImageData),
        };
        assert(read_info_outcome(m0, reader@, ir));
        return r;
    }
    match &reader.document {
        Some(d) => image_rows_of(&d.image),
        None => Err(PngParseError::MissingImageData),
    }
}

/// The warnings recorded so far, in order.
pub fn png_compat_read_warnings(reader: &PngCompatReadStruct) -> (r: &[PngCompatibilityWarning])
    ensures
        r@ == reader@.warnings,
{
    reader.warnings.as_slice()
}

/// Empties the reader: input, document, transforms, warnings and handler.
pub fn png_compat_destroy_read_struct(reader: &mut PngCompatReadStruct)
    ensures
        final(reader)@ == (ReadModel {
            input: Seq::empty(),
            document: None,
            transforms: Seq::empty(),
            warnings: Seq::empty(),
            handler_installed: false,
            notifications: Seq::empty(),
        }),
{
    reader.input = Vec::new();
    reader.document = None;
    reader.transforms = Vec::new();
    reader.warnings = Vec::new();
    reader.handler_installed = false;
    reader.notifications = Vec::new();
}

impl Default for PngCompatUnknownChunkPolicy {
    fn default() -> (r: Self)
        ensures
            r == PngCompatUnknownChunkPolicy::SafeToCopy,
    {
        PngCompatUnknownChunkPolicy::SafeToCopy
    }
}

/// The state of the compatibility writer.
#[derive(Debug, Default)]
pub struct PngCompatWriteStruct {
    output: Vec<u8>,
    unknown_chunk_policy: PngCompatUnknownChunkPolicy,
    warnings: Vec<PngCompatibilityWarning>,
}

/// The writer's state, as values.
pub struct WriteModel {
    pub output: Seq<u8>,
    pub unknown_chunk_policy: PngCompatUnknownChunkPolicy,
    pub warnings: Seq<PngCompatibilityWarning>,
}

impl View for PngCompatWriteStruct {
    type V = WriteModel;

    closed spec fn view(&self) -> WriteModel {
        WriteModel { output: self.output@, unknown_chunk_policy: self.unknown_chunk_policy, warnings: self.warnings@ }
    }
}

/// A new writer: no output, the safe-to-copy policy, the two facade notices.
pub fn png_compat_create_write_struct() -> (r: PngCompatWriteStruct)
    ensures
        r@ == (WriteModel {
            output: Seq::empty(),
            unknown_chunk_policy: PngCompatUnknownChunkPolicy::SafeToCopy,
            warnings: seq![PngCompatibilityWarning::RustNativeFacadeOnly, PngCompatibilityWarning::CAbiNotProvided],
        }),
{
    let r = PngCompatWriteStruct {
        output: Vec::new(),
        unknown_chunk_policy: PngCompatUnknownChunkPolicy::SafeToCopy,
        warnings: vec![PngCompatibilityWarning::RustNativeFacadeOnly, PngCompatibilityWarning::CAbiNotProvided],
    };
    assert(r@.warnings =~= seq![PngCompatibilityWarning::RustNativeFacadeOnly, PngCompatibilityWarning::CAbiNotProvided]);
    r
}

/// Sets which unknown chunks documents copy; copying every ancillary chunk
/// records a notice.
pub fn png_compat_set_unknown_chunk_policy(writer: &mut PngCompatWriteStruct, policy: PngCompatUnknownChunkPolicy)
    ensures
        final(writer)@ == (WriteModel {
            unknown_chunk_policy: policy,
            warnings: if policy == PngCompatUnknownChunkPolicy::AllAncillary {
                push_unique(old(writer)@.warnings, PngCompatibilityWarning::UnsafeAncillaryCopyAllowed)
            } else {
                old(writer)@.warnings
            },
            ..old(writer)@
        }),
{
    writer.unknown_chunk_policy = policy;
    let all = match policy {
        PngCompatUnknownChunkPolicy::AllAncillary => true,
        _ => false,
    };
    if all {
        if !contains_warning(&writer.warnings, PngCompatibilityWarning::UnsafeAncillaryCopyAllowed) {
            writer.warnings.push(PngCompatibilityWarning::UnsafeAncillaryCopyAllowed);
        }
    }
}

/// Encodes an image as the writer's output; on failure the output stays.
pub fn png_compat_write_image(writer: &mut PngCompatWriteStruct, image: &PngImage) -> (r: Result<(), PngParseError>)
    ensures
        match r {
            Ok(()) => encode::encoded_with(image@, 0, encode::idat_scanlines(image@, super::types::PngFilterStrategy::NoFilter), Ok(final(writer)@.output))
                && final(writer)@ == (WriteModel { output: final(writer)@.output, ..old(writer)@ }),
            Err(e) => encode::encoded_with(image@, 0, encode::idat_scanlines(image@, super::types::PngFilterStrategy::NoFilter), Err(e))
                && final(writer)@ == old(writer)@,
        },
{
    match encode::encode_png_image(image) {
        Ok(out) => {
            writer.output = out;
            Ok(())
        },
        Err(e) => Err(e),
    }
}

/// Encodes a document with the writer's unknown-chunk policy.
pub fn png_compat_write_document(writer: &mut PngCompatWriteStruct, document: &PngDocument) -> (r: Result<(), PngParseError>)
    ensures
        match r {
            Ok(()) => encode_doc::document_bytes(*document, old(writer)@.unknown_chunk_policy) == Ok::<Seq<u8>, PngParseError>(final(writer)@.output)
                && final(writer)@ == (WriteModel { output: final(writer)@.output, ..old(writer)@ }),
            Err(e) => encode_doc::document_bytes(*document, old(writer)@.unknown_chunk_policy) == Err::<Seq<u8>, PngParseError>(e)
                && final(writer)@ == old(writer)@,
        },
{
    match encode_doc::encode_png_document_with_unknown_policy(document, writer.unknown_chunk_policy) {
        Ok(out) => {
            writer.output = out;
            Ok(())
        },
        Err(e) => Err(e),
    }
}

/// Encodes a palette image as the writer's output.
pub fn png_compat_write_indexed_image(writer: &mut PngCompatWriteStruct, image: &PngIndexedImage) -> (r: Result<(), PngParseError>)
    ensures
        match encode_meta::indexed_parts(image@) {
            Err(e) => r == Err::<(), PngParseError>(e) && final(writer)@ == old(writer)@,
            Ok((ih, pl, t, sc)) => match r {
                Ok(()) => super::zlib::zlib_deflate_outcome(sc) is Some && super::zlib::zlib_deflated(sc).len() <= 0x7fff_ffff
                    && final(writer)@.output == encode_meta::indexed_png_bytes(ih, pl, t, super::zlib::zlib_deflated(sc))
                    && final(writer)@ == (WriteModel { output: final(writer)@.output, ..old(writer)@ }),
                Err(e) => ((e == PngParseError::DeflateFailed && super::zlib::zlib_deflate_outcome(sc) is None) || (e
                    == PngParseError::InvalidChunkLength { length: 0x8000_0000 } && super::zlib::zlib_deflate_outcome(sc) is Some
                    && super::zlib::zlib_deflated(sc).len() > 0x7fff_ffff)) && final(writer)@ == old(writer)@,
            },
        },
{
    match encode_meta::encode_indexed_png_image(image) {
        Ok(out) => {
            writer.output = out;
            Ok(())
        },
        Err(e) => Err(e),
    }
}

/// The bytes written last.
pub fn png_compat_write_output(writer: &PngCompatWriteStruct) -> (r: &[u8])
    ensures
        r@ == writer@.output,
{
    writer.output.as_slice()
}

/// The writer's warnings, in order.
pub fn png_compat_write_warnings(writer: &PngCompatWriteStruct) -> (r: &[PngCompatibilityWarning])
    ensures
        r@ == writer@.warnings,
{
    writer.warnings.as_slice()
}

/// Empties the writer and restores the default policy.
pub fn png_compat_destroy_write_struct(writer: &mut PngCompatWriteStruct)
    ensures
        final(writer)@ == (WriteModel { output: Seq::empty(), unknown_chunk_policy: PngCompatUnknownChunkPolicy::SafeToCopy, warnings: Seq::empty() }),
{
    writer.output = Vec::new();
    writer.unknown_chunk_policy = PngCompatUnknownChunkPolicy::SafeToCopy;
    writer.warnings = Vec::new();
}

} // verus!
