//! Cutting a stream of JPEG pictures into pictures, and turning those into frames.
use crate::color::{frame_of, rgb_to_nv12};
use crate::text::{append, dec, decimal};
use vstd::prelude::*;

verus! {

/// Whether the bytes `x` and `y` stand at position `i`.
pub open spec fn pair_at(s: Seq<u8>, i: int, x: u8, y: u8) -> bool {
    0 <= i && i + 1 < s.len() && s[i] == x && s[i + 1] == y
}

/// Where the bytes `x` and `y` first stand, at or after position `from`.
pub open spec fn pair_from(s: Seq<u8>, from: int, x: u8, y: u8) -> Option<int>
    decreases s.len() - from,
{
    if from + 1 >= s.len() {
        None
    } else if pair_at(s, from, x, y) {
        Some(from)
    } else {
        pair_from(s, from + 1, x, y)
    }
}

/// Where the first picture begins.
pub open spec fn start_of(s: Seq<u8>) -> Option<int> {
    pair_from(s, 0, 0xFF, 0xD8)
}

/// Where the mark at the end of a picture that begins at `i` stands.
pub open spec fn end_of(s: Seq<u8>, i: int) -> Option<int> {
    pair_from(s, i + 2, 0xFF, 0xD9)
}

/// What is kept of bytes in which no picture begins: the last one, if it may be the first half of the mark.
pub open spec fn half_mark(s: Seq<u8>) -> Seq<u8> {
    if s.len() > 0 && s.last() == 0xFF {
        seq![0xFFu8]
    } else {
        Seq::empty()
    }
}

/// The whole pictures in a stream.
pub open spec fn pictures(s: Seq<u8>) -> Seq<Seq<u8>>
    decreases s.len(),
{
    match start_of(s) {
        None => Seq::empty(),
        Some(i) => match end_of(s, i) {
            None => Seq::empty(),
            Some(e) => if 0 <= i <= e && e + 2 <= s.len() {
                seq![s.subrange(i, e + 2)] + pictures(s.skip(e + 2))
            } else {
                Seq::empty()
            },
        },
    }
}

/// What is kept of a stream until more of it comes.
pub open spec fn leftover(s: Seq<u8>) -> Seq<u8>
    decreases s.len(),
{
    match start_of(s) {
        None => half_mark(s),
        Some(i) => match end_of(s, i) {
            None => s.skip(i),
            Some(e) => if 0 <= i <= e && e + 2 <= s.len() {
                leftover(s.skip(e + 2))
            } else {
                s
            },
        },
    }
}

proof fn lemma_pair_from(s: Seq<u8>, from: int, x: u8, y: u8)
    requires
        0 <= from,
    ensures
        match pair_from(s, from, x, y) {
            Some(i) => from <= i && pair_at(s, i, x, y) && forall|j: int| from <= j < i ==> !#[trigger] pair_at(s, j, x, y),
            None => forall|j: int| from <= j ==> !#[trigger] pair_at(s, j, x, y),
        },
    decreases s.len() - from,
{
    if from + 1 < s.len() && !pair_at(s, from, x, y) {
        lemma_pair_from(s, from + 1, x, y);
    }
}

proof fn lemma_pair_is(s: Seq<u8>, from: int, x: u8, y: u8, i: int)
    requires
        0 <= from <= i,
        pair_at(s, i, x, y),
        forall|j: int| from <= j < i ==> !#[trigger] pair_at(s, j, x, y),
    ensures
        pair_from(s, from, x, y) == Some(i),
{
    lemma_pair_from(s, from, x, y);
    match pair_from(s, from, x, y) {
        Some(k) => {
            if k < i {
                assert(!pair_at(s, k, x, y));
            }
        },
        None => {},
    }
}

proof fn lemma_pair_none(s: Seq<u8>, from: int, x: u8, y: u8)
    requires
        0 <= from,
        forall|j: int| from <= j ==> !#[trigger] pair_at(s, j, x, y),
    ensures
        pair_from(s, from, x, y) is None,
{
    lemma_pair_from(s, from, x, y);
}

/// Bytes in front of the first picture change nothing.
proof fn lemma_prefix(p: Seq<u8>, s: Seq<u8>)
    requires
        forall|j: int| 0 <= j < p.len() ==> !#[trigger] pair_at(p + s, j, 0xFF, 0xD8),
        s.len() > 0 || p.len() == 0 || p.last() != 0xFF,
    ensures
        pictures(p + s) == pictures(s),
        leftover(p + s) == leftover(s),
{
    let t = p + s;
    let n = p.len() as int;
    assert forall|j: int| 0 <= j implies #[trigger] pair_at(t, j + n, 0xFF, 0xD8) == pair_at(s, j, 0xFF, 0xD8) by {
        if j + 1 < s.len() {
            assert(t[j + n] == s[j] && t[j + n + 1] == s[j + 1]);
        }
    }
    lemma_pair_from(s, 0, 0xFF, 0xD8);
    match start_of(s) {
        None => {
            assert forall|j: int| 0 <= j implies !#[trigger] pair_at(t, j, 0xFF, 0xD8) by {
                if j >= n {
                    assert(pair_at(t, (j - n) + n, 0xFF, 0xD8) == pair_at(s, j - n, 0xFF, 0xD8));
                }
            }
            lemma_pair_none(t, 0, 0xFF, 0xD8);
            if s.len() > 0 {
                assert(t.last() == s.last());
            } else if p.len() > 0 {
                assert(t.last() == p.last());
            } else {
                assert(t =~= s);
            }
        },
        Some(i) => {
            assert(pair_at(t, i + n, 0xFF, 0xD8));
            assert forall|j: int| 0 <= j < i + n implies !#[trigger] pair_at(t, j, 0xFF, 0xD8) by {
                if j >= n {
                    assert(pair_at(t, (j - n) + n, 0xFF, 0xD8) == pair_at(s, j - n, 0xFF, 0xD8));
                }
            }
            lemma_pair_is(t, 0, 0xFF, 0xD8, i + n);
            lemma_pair_from(s, i + 2, 0xFF, 0xD9);
            assert forall|j: int| 0 <= j implies #[trigger] pair_at(t, j + n, 0xFF, 0xD9) == pair_at(
                s,
                j,
                0xFF,
                0xD9,
            ) by {
                if j + 1 < s.len() {
                    assert(t[j + n] == s[j] && t[j + n + 1] == s[j + 1]);
                }
            }
            match end_of(s, i) {
                None => {
                    assert forall|j: int| i + n + 2 <= j implies !#[trigger] pair_at(t, j, 0xFF, 0xD9) by {
                        assert(pair_at(t, (j - n) + n, 0xFF, 0xD9) == pair_at(s, j - n, 0xFF, 0xD9));
                    }
                    lemma_pair_none(t, i + n + 2, 0xFF, 0xD9);
                    assert(t.skip(i + n) =~= s.skip(i));
                },
                Some(e) => {
                    assert(pair_at(t, e + n, 0xFF, 0xD9));
                    assert forall|j: int| i + n + 2 <= j < e + n implies !#[trigger] pair_at(t, j, 0xFF, 0xD9) by {
                        assert(pair_at(t, (j - n) + n, 0xFF, 0xD9) == pair_at(s, j - n, 0xFF, 0xD9));
                    }
                    lemma_pair_is(t, i + n + 2, 0xFF, 0xD9, e + n);
                    assert(t.subrange(i + n, e + n + 2) =~= s.subrange(i, e + 2));
                    assert(t.skip(e + n + 2) =~= s.skip(e + 2));
                },
            }
        },
    }
}

/// It does not matter how a stream is cut into pieces: the pictures of two pieces, where what is kept of the first one
/// is put in front of the second, are those of the whole, and so is what is kept in the end.
pub proof fn law_pieces(a: Seq<u8>, b: Seq<u8>)
    ensures
        pictures(a + b) == pictures(a) + pictures(leftover(a) + b),
        leftover(a + b) == leftover(leftover(a) + b),
    decreases a.len(),
{
    let t = a + b;
    lemma_pair_from(a, 0, 0xFF, 0xD8);
    match start_of(a) {
        None => {
            let r = half_mark(a);
            let p = a.take(a.len() - r.len());
            assert(p + (r + b) =~= t);
            assert forall|j: int| 0 <= j < p.len() implies !#[trigger] pair_at(t, j, 0xFF, 0xD8) by {
                if j + 1 < a.len() {
                    assert(t[j] == a[j] && t[j + 1] == a[j + 1]);
                    assert(!pair_at(a, j, 0xFF, 0xD8));
                } else {
                    assert(t[j] == a[j]);
                    assert(a.last() == a[j]);
                }
            }
            if (r + b).len() == 0 && p.len() > 0 {
                assert(p =~= a);
            }
            lemma_prefix(p, r + b);
            assert(Seq::<Seq<u8>>::empty() + pictures(r + b) =~= pictures(r + b));
        },
        Some(i) => {
            assert forall|j: int| 0 <= j < i implies !#[trigger] pair_at(t, j, 0xFF, 0xD8) by {
                assert(t[j] == a[j] && t[j + 1] == a[j + 1]);
                assert(!pair_at(a, j, 0xFF, 0xD8));
            }
            lemma_pair_from(a, i + 2, 0xFF, 0xD9);
            match end_of(a, i) {
                None => {
                    let p = a.take(i);
                    assert(p + (a.skip(i) + b) =~= t);
                    lemma_prefix(p, a.skip(i) + b);
                    assert(Seq::<Seq<u8>>::empty() + pictures(a.skip(i) + b) =~= pictures(a.skip(i) + b));
                },
                Some(e) => {
                    assert(pair_at(t, i, 0xFF, 0xD8)) by {
                        assert(t[i] == a[i] && t[i + 1] == a[i + 1]);
                    }
                    lemma_pair_is(t, 0, 0xFF, 0xD8, i);
                    assert(pair_at(t, e, 0xFF, 0xD9)) by {
                        assert(t[e] == a[e] && t[e + 1] == a[e + 1]);
                    }
                    assert forall|j: int| i + 2 <= j < e implies !#[trigger] pair_at(t, j, 0xFF, 0xD9) by {
                        assert(t[j] == a[j] && t[j + 1] == a[j + 1]);
                        assert(!pair_at(a, j, 0xFF, 0xD9));
                    }
                    lemma_pair_is(t, i + 2, 0xFF, 0xD9, e);
                    let c = a.skip(e + 2);
                    assert(t.skip(e + 2) =~= c + b);
                    assert(t.subrange(i, e + 2) =~= a.subrange(i, e + 2));
                    law_pieces(c, b);
                    let one = seq![a.subrange(i, e + 2)];
                    assert(one + (pictures(c) + pictures(leftover(c) + b)) =~= (one + pictures(c)) + pictures(
                        leftover(c) + b,
                    ));
                },
            }
        },
    }
}

/// Pictures as sequences of bytes.
pub open spec fn byte_rows(s: Seq<Vec<u8>>) -> Seq<Seq<u8>> {
    s.map_values(|v: Vec<u8>| v@)
}

fn find_pair(buf: &[u8], from: usize, x: u8, y: u8) -> (r: Option<usize>)
    requires
        from <= buf@.len(),
    ensures
        r is Some <==> pair_from(buf@, from as int, x, y) is Some,
        r is Some ==> r->0 == pair_from(buf@, from as int, x, y)->0,
{
    assert(buf.len() == buf@.len());
    let mut i: usize = from;
    while i < buf.len() && i + 1 < buf.len()
        invariant
            from <= i <= buf@.len(),
            buf@.len() <= usize::MAX,
            pair_from(buf@, from as int, x, y) == pair_from(buf@, i as int, x, y),
        decreases buf@.len() - i,
    {
        if buf[i] == x && buf[i + 1] == y {
            return Some(i);
        }
        i = i + 1;
    }
    None
}

/// Cuts a stream of JPEG pictures, which comes in pieces, into pictures.
pub struct JpegFrameScanner {
    buf: Vec<u8>,
}

impl View for JpegFrameScanner {
    type V = Seq<u8>;

    /// What is kept until more of the stream comes.
    closed spec fn view(&self) -> Seq<u8> {
        self.buf@
    }
}

impl JpegFrameScanner {
    /// A scanner at the beginning of a stream.
    pub fn new() -> (s: JpegFrameScanner)
        ensures
            s@ == Seq::<u8>::empty(),
    {
        JpegFrameScanner { buf: Vec::new() }
    }

    /// Takes in a piece of the stream, and appends the pictures that are whole now to `out`.
    pub fn push(&mut self, chunk: &[u8], out: &mut Vec<Vec<u8>>)
        ensures
            byte_rows(final(out)@) == byte_rows(old(out)@) + pictures(old(self)@ + chunk@),
            final(self)@ == leftover(old(self)@ + chunk@),
    {
        let ghost all = self.buf@ + chunk@;
        let ghost had = byte_rows(out@);
        self.buf.extend_from_slice(chunk);
        assert(self.buf@ =~= all);
        loop
            invariant_except_break
                had + pictures(all) == byte_rows(out@) + pictures(self.buf@),
                leftover(all) == leftover(self.buf@),
            ensures
                had + pictures(all) == byte_rows(out@),
                leftover(all) == self.buf@,
            decreases self.buf@.len(),
        {
            let n: usize = self.buf.len();
            let ghost s = self.buf@;
            proof {
                lemma_pair_from(s, 0, 0xFF, 0xD8);
            }
            match find_pair(self.buf.as_slice(), 0, 0xFF, 0xD8) {
                None => {
                    let half: bool = n > 0 && self.buf[n - 1] == 0xFF;
                    self.buf.clear();
                    if half {
                        self.buf.push(0xFF);
                    }
                    assert(self.buf@ =~= half_mark(s));
                    assert(byte_rows(out@) + Seq::<Seq<u8>>::empty() =~= byte_rows(out@));
                    break;
                },
                Some(i) => {
                    proof {
                        lemma_pair_from(s, i + 2, 0xFF, 0xD9);
                    }
                    match find_pair(self.buf.as_slice(), i + 2, 0xFF, 0xD9) {
                        None => {
                            self.buf = vstd::slice::slice_to_vec(
                                vstd::slice::slice_subrange(self.buf.as_slice(), i, n),
                            );
                            assert(self.buf@ =~= s.skip(i as int));
                            assert(byte_rows(out@) + Seq::<Seq<u8>>::empty() =~= byte_rows(out@));
                            break;
                        },
                        Some(e) => {
                            let picture = vstd::slice::slice_to_vec(
                                vstd::slice::slice_subrange(self.buf.as_slice(), i, e + 2),
                            );
                            self.buf = vstd::slice::slice_to_vec(
                                vstd::slice::slice_subrange(self.buf.as_slice(), e + 2, n),
                            );
                            let ghost before = byte_rows(out@);
                            assert(picture@ =~= s.subrange(i as int, e + 2));
                            assert(self.buf@ =~= s.skip(e + 2));
                            out.push(picture);
                            assert(byte_rows(out@) =~= before.push(picture@));
                            assert(before + (seq![picture@] + pictures(self.buf@)) =~= before.push(picture@) + pictures(
                                self.buf@,
                            ));
                        },
                    }
                },
            }
        }
    }
}

impl Default for JpegFrameScanner {
    fn default() -> (s: JpegFrameScanner)
        ensures
            s@ == Seq::<u8>::empty(),
    {
        JpegFrameScanner::new()
    }
}

/// What the bytes of a picture are.
#[derive(Debug, Clone, Copy, PartialEq, Eq, Structural)]
pub enum PixelFormat {
    /// One byte per pixel: brightness.
    L8,
    /// Two bytes per pixel: brightness.
    L16,
    /// Three bytes per pixel: red, green, blue.
    RGB24,
    /// Four bytes per pixel: cyan, magenta, yellow, black.
    CMYK32,
}

/// The name of a format.
pub open spec fn format_name(f: PixelFormat) -> Seq<char> {
    match f {
        PixelFormat::L8 => "L8"@,
        PixelFormat::L16 => "L16"@,
        PixelFormat::RGB24 => "RGB24"@,
        PixelFormat::CMYK32 => "CMYK32"@,
    }
}

/// The size of a picture, and what its bytes are.
#[derive(Debug, Clone, Copy, PartialEq, Eq, Structural)]
pub struct PictureInfo {
    pub width: u16,
    pub height: u16,
    pub format: PixelFormat,
}

/// A picture that was decoded.
#[derive(Debug)]
pub struct Picture {
    pub pixels: Vec<u8>,
    pub info: Option<PictureInfo>,
}

/// Whether a picture with three bytes per pixel has all its pixels.
pub open spec fn complete(p: Picture) -> bool {
    p.info is Some && p.info->0.format == PixelFormat::RGB24 ==> p.pixels@.len() >= 3 * (p.info->0.width
        * p.info->0.height)
}

/// The size and the format that the header of a JPEG picture gives, by `jpeg_decoder::Decoder::info` after
/// `jpeg_decoder::Decoder::read_info`; none, if the header cannot be read.
pub uninterp spec fn jpeg_header(jpeg: Seq<u8>) -> Option<PictureInfo>;

/// What `jpeg_decoder::Decoder::decode` says is wrong with the bytes of a JPEG picture, if it cannot decode them.
pub uninterp spec fn jpeg_fault(jpeg: Seq<u8>) -> Option<Seq<char>>;

/// The longest edge up to which `jpeg_decoder::Decoder::decode` can count the blocks of eight pixels in 16 bits, whatever the
/// picture is made of.
pub const EDGE_MAX: u16 = 65528;

/// Whether byte `i` may begin a scan of a single component.
pub open spec fn lone_scan_at(jpeg: Seq<u8>, i: int) -> bool {
    &&& i + 4 < jpeg.len()
    &&& jpeg[i] == 0xFF
    &&& jpeg[i + 1] == 0xDA
    &&& jpeg[i + 2] == 0
    &&& jpeg[i + 3] == 8
    &&& jpeg[i + 4] == 1
}

/// Whether a picture may hold a scan of a single component. Then the blocks of the component are counted one by one, and not
/// in the groups in which the components of a joint scan come.
pub open spec fn may_scan_alone(jpeg: Seq<u8>) -> bool {
    exists|i: int| 0 <= i < jpeg.len() && #[trigger] lone_scan_at(jpeg, i)
}

/// Whether byte `i` may begin the header of a frame, and its component `k` has three blocks side by side in a group.
pub open spec fn three_wide_at(jpeg: Seq<u8>, i: int, k: int) -> bool {
    &&& i + 11 + 3 * k < jpeg.len()
    &&& jpeg[i] == 0xFF
    &&& 0xC0 <= jpeg[i + 1] <= 0xCF
    &&& k < jpeg[i + 9]
    &&& jpeg[i + 11 + 3 * k] / 16 == 3
}

/// Whether a picture may have groups that are three blocks wide. A row of whole groups can then be one block longer than any
/// other row.
pub open spec fn may_be_three_wide(jpeg: Seq<u8>) -> bool {
    exists|i: int, k: int| 0 <= i < jpeg.len() && 0 <= k < 255 && #[trigger] three_wide_at(jpeg, i, k)
}

/// Whether `jpeg_decoder::Decoder::decode` may count too far: over the rows of a lone component of a very tall picture, or
/// over the blocks in a row of a lone component of a very wide one, if its groups are three blocks wide.
pub open spec fn too_large(jpeg: Seq<u8>) -> bool {
    match jpeg_header(jpeg) {
        Some(i) => may_scan_alone(jpeg) && (i.height > EDGE_MAX || (i.width > EDGE_MAX && may_be_three_wide(jpeg))),
        None => false,
    }
}

/// Reads the header of a JPEG picture, by `jpeg_decoder::Decoder::read_info` and `jpeg_decoder::Decoder::info`. What they
/// give depends on the bytes alone.
#[verifier::external_body]
fn read_header(jpeg: &[u8]) -> (r: Option<PictureInfo>)
    ensures
        r == jpeg_header(jpeg@),
{
    let mut dec = jpeg_decoder::Decoder::new(std::io::Cursor::new(jpeg));
    dec.read_info().ok()?;
    dec.info().map(|i| PictureInfo {
        width: i.width,
        height: i.height,
        format: match i.pixel_format {
            jpeg_decoder::PixelFormat::L8 => PixelFormat::L8,
            jpeg_decoder::PixelFormat::L16 => PixelFormat::L16,
            jpeg_decoder::PixelFormat::RGB24 => PixelFormat::RGB24,
            jpeg_decoder::PixelFormat::CMYK32 => PixelFormat::CMYK32,
        },
    })
}

/// Decodes a JPEG picture in which nothing is counted too far, by `jpeg_decoder::Decoder::decode`. Whether it can be decoded depends on its
/// bytes alone. Of the pixels it is only claimed that a picture whose header gives three bytes per pixel has them all; which
/// bytes they are depends on the machine in the last bit, so nothing is said of that.
#[verifier::external_body]
fn decode_pixels(jpeg: &[u8]) -> (r: Result<Vec<u8>, String>)
    requires
        !too_large(jpeg@),
    ensures
        match jpeg_fault(jpeg@) {
            Some(m) => r is Err && r->Err_0@ == m,
            None => r is Ok && complete(Picture { pixels: r->Ok_0, info: jpeg_header(jpeg@) }),
        },
{
    let mut dec = jpeg_decoder::Decoder::new(std::io::Cursor::new(jpeg));
    dec.decode().map_err(|e| e.to_string())
}

/// Why a decoded picture is not a frame of a `w` by `h` video, if it is not one.
pub open spec fn objection(r: Result<Picture, String>, w: int, h: int) -> Option<Seq<char>> {
    match r {
        Err(e) => Some("JPEG 解码失败: "@ + e@),
        Ok(p) => match p.info {
            None => Some("JPEG 缺少头信息"@),
            Some(i) => if i.width != w || i.height != h {
                Some(
                    "JPEG 帧 "@ + dec(i.width as nat) + "×"@ + dec(i.height as nat) + " 与视频 "@ + dec(w as nat)
                        + "×"@ + dec(h as nat) + " 不符"@,
                )
            } else if i.format != PixelFormat::RGB24 {
                Some("期望 RGB24 输出，得到 "@ + format_name(i.format))
            } else {
                None
            },
        },
    }
}

/// What comes of a decoded picture: the frame, or what is wrong with it.
pub open spec fn is_outcome(r: Result<Picture, String>, w: int, h: int, out: Result<Vec<u8>, String>) -> bool {
    match objection(r, w, h) {
        Some(m) => out is Err && out->Err_0@ == m,
        None => out is Ok && out->Ok_0@ == frame_of(r->Ok_0.pixels@, w, h),
    }
}

/// Turns a decoded picture into a frame of a `w` by `h` video.
pub fn frame_from_picture(r: Result<Picture, String>, w: usize, h: usize) -> (out: Result<Vec<u8>, String>)
    requires
        w % 2 == 0,
        h % 2 == 0,
        r is Ok ==> complete(r->Ok_0),
    ensures
        is_outcome(r, w as int, h as int, out),
{
    match r {
        Err(e) => {
            let mut s = String::new();
            append(&mut s, "JPEG 解码失败: ");
            append(&mut s, e.as_str());
            assert(s@ =~= "JPEG 解码失败: "@ + e@);
            Err(s)
        },
        Ok(p) => match p.info {
            None => Err("JPEG 缺少头信息".to_string()),
            Some(i) => {
                if i.width as usize != w || i.height as usize != h {
                    let mut s = String::new();
                    append(&mut s, "JPEG 帧 ");
                    append(&mut s, decimal(i.width as u64).as_str());
                    append(&mut s, "×");
                    append(&mut s, decimal(i.height as u64).as_str());
                    append(&mut s, " 与视频 ");
                    append(&mut s, decimal(w as u64).as_str());
                    append(&mut s, "×");
                    append(&mut s, decimal(h as u64).as_str());
                    append(&mut s, " 不符");
                    assert(s@ =~= "JPEG 帧 "@ + dec(i.width as nat) + "×"@ + dec(i.height as nat) + " 与视频 "@ + dec(
                        w as nat,
                    ) + "×"@ + dec(h as nat) + " 不符"@);
                    return Err(s);
                }
                let name: &str = match i.format {
                    PixelFormat::L8 => "L8",
                    PixelFormat::L16 => "L16",
                    PixelFormat::RGB24 => {
                        return Ok(rgb_to_nv12(p.pixels.as_slice(), w, h));
                    },
                    PixelFormat::CMYK32 => "CMYK32",
                };
                let mut s = String::new();
                append(&mut s, "期望 RGB24 输出，得到 ");
                append(&mut s, name);
                assert(s@ =~= "期望 RGB24 输出，得到 "@ + format_name(i.format));
                Err(s)
            },
        },
    }
}

/// Whether `r` is what decoding a JPEG picture may give.
pub open spec fn may_decode(jpeg: Seq<u8>, r: Result<Picture, String>) -> bool {
    match jpeg_fault(jpeg) {
        Some(m) => r is Err && r->Err_0@ == m,
        None => r is Ok && r->Ok_0.info == jpeg_header(jpeg) && complete(r->Ok_0),
    }
}

fn has_lone_scan(jpeg: &[u8]) -> (r: bool)
    ensures
        r == may_scan_alone(jpeg@),
{
    for i in 0..jpeg.len()
        invariant
            forall|j: int| 0 <= j < i ==> !#[trigger] lone_scan_at(jpeg@, j),
    {
        if jpeg.len() - i > 4 && jpeg[i] == 0xFF && jpeg[i + 1] == 0xDA && jpeg[i + 2] == 0 && jpeg[i + 3] == 8 && jpeg[i + 4]
            == 1 {
            assert(lone_scan_at(jpeg@, i as int));
            return true;
        }
    }
    false
}

fn has_three_wide(jpeg: &[u8]) -> (r: bool)
    ensures
        r == may_be_three_wide(jpeg@),
{
    for i in 0..jpeg.len()
        invariant
            forall|j: int, k: int| 0 <= j < i && 0 <= k < 255 ==> !#[trigger] three_wide_at(jpeg@, j, k),
    {
        if jpeg.len() - i > 11 && jpeg[i] == 0xFF && 0xC0 <= jpeg[i + 1] && jpeg[i + 1] <= 0xCF {
            let n: usize = jpeg[i + 9] as usize;
            for k in 0..n
                invariant
                    n == jpeg@[i + 9] <= 255,
                    jpeg@.len() - i > 11,
                    jpeg@[i as int] == 0xFF,
                    0xC0 <= jpeg@[i + 1] <= 0xCF,
                    forall|c: int| 0 <= c < k ==> !#[trigger] three_wide_at(jpeg@, i as int, c),
            {
                if jpeg.len() - i > 11 + 3 * k && jpeg[i + (11 + 3 * k)] / 16 == 3 {
                    assert(three_wide_at(jpeg@, i as int, k as int));
                    return true;
                }
            }
        }
    }
    false
}

/// What is said of a picture that is too large.
pub open spec fn size_text(i: PictureInfo) -> Seq<char> {
    "JPEG 帧 "@ + dec(i.width as nat) + "×"@ + dec(i.height as nat) + " 过大"@
}

/// Turns a JPEG picture into a frame of a `w` by `h` video.
pub fn jpeg_to_nv12(jpeg: &[u8], w: usize, h: usize) -> (out: Result<Vec<u8>, String>)
    requires
        w % 2 == 0,
        h % 2 == 0,
    ensures
        too_large(jpeg@) ==> out is Err && out->Err_0@ == size_text(jpeg_header(jpeg@)->0),
        !too_large(jpeg@) ==> exists|r: Result<Picture, String>|
            may_decode(jpeg@, r) && is_outcome(r, w as int, h as int, out),
        !too_large(jpeg@) ==> (out is Ok <==> jpeg_fault(jpeg@) is None && jpeg_header(jpeg@) is Some
            && jpeg_header(jpeg@)->0.width == w && jpeg_header(jpeg@)->0.height == h && jpeg_header(jpeg@)->0.format
            == PixelFormat::RGB24),
{
    let info = read_header(jpeg);
    match info {
        Some(i) => {
            if (i.height > EDGE_MAX || (i.width > EDGE_MAX && has_three_wide(jpeg))) && has_lone_scan(jpeg) {
                let mut s = "JPEG 帧 ".to_owned();
                append(&mut s, decimal(i.width as u64).as_str());
                append(&mut s, "×");
                append(&mut s, decimal(i.height as u64).as_str());
                append(&mut s, " 过大");
                return Err(s);
            }
        },
        None => {},
    }
    let r: Result<Picture, String> = match decode_pixels(jpeg) {
        Ok(pixels) => Ok(Picture { pixels, info }),
        Err(e) => Err(e),
    };
    let ghost g = r;
    let out = frame_from_picture(r, w, h);
    assert(may_decode(jpeg@, g) && is_outcome(g, w as int, h as int, out));
    out
}

/// A picture is what stands from its first mark up to the next mark for its end, both with it; behind it the stream goes on. Bytes before
/// the first mark belong to no picture.
pub proof fn law_picture_is_found(s: Seq<u8>, i: int, e: int)
    requires
        0 <= i,
        i + 2 <= e,
        e + 1 < s.len(),
        s[i] == 0xFF && s[i + 1] == 0xD8,
        s[e] == 0xFF && s[e + 1] == 0xD9,
        forall|j: int| 0 <= j < i ==> !(#[trigger] s[j] == 0xFF && s[j + 1] == 0xD8),
        forall|j: int| i + 2 <= j < e ==> !(#[trigger] s[j] == 0xFF && s[j + 1] == 0xD9),
    ensures
        pictures(s) == seq![s.subrange(i, e + 2)] + pictures(s.skip(e + 2)),
        leftover(s) == leftover(s.skip(e + 2)),
{
    assert forall|j: int| 0 <= j < i implies !#[trigger] pair_at(s, j, 0xFF, 0xD8) by {
        assert(!(s[j] == 0xFF && s[j + 1] == 0xD8));
    }
    lemma_pair_is(s, 0, 0xFF, 0xD8, i);
    assert forall|j: int| i + 2 <= j < e implies !#[trigger] pair_at(s, j, 0xFF, 0xD9) by {
        assert(!(s[j] == 0xFF && s[j + 1] == 0xD9));
    }
    lemma_pair_is(s, i + 2, 0xFF, 0xD9, e);
}

/// A picture whose end has not come yet is kept from its first mark on, and is no picture yet.
pub proof fn law_picture_is_awaited(s: Seq<u8>, i: int)
    requires
        0 <= i,
        i + 1 < s.len(),
        s[i] == 0xFF && s[i + 1] == 0xD8,
        forall|j: int| 0 <= j < i ==> !(#[trigger] s[j] == 0xFF && s[j + 1] == 0xD8),
        forall|j: int| i + 2 <= j < s.len() - 1 ==> !(#[trigger] s[j] == 0xFF && s[j + 1] == 0xD9),
    ensures
        pictures(s) == Seq::<Seq<u8>>::empty(),
        leftover(s) == s.skip(i),
{
    assert forall|j: int| 0 <= j < i implies !#[trigger] pair_at(s, j, 0xFF, 0xD8) by {
        assert(!(s[j] == 0xFF && s[j + 1] == 0xD8));
    }
    lemma_pair_is(s, 0, 0xFF, 0xD8, i);
    assert forall|j: int| i + 2 <= j implies !#[trigger] pair_at(s, j, 0xFF, 0xD9) by {
        if j + 1 < s.len() {
            assert(!(s[j] == 0xFF && s[j + 1] == 0xD9));
        }
    }
    lemma_pair_none(s, i + 2, 0xFF, 0xD9);
}

/// Where no picture begins, there is none, and nothing is kept but a last byte that may be the first half of the mark.
pub proof fn law_no_picture(s: Seq<u8>)
    requires
        forall|j: int| 0 <= j < s.len() - 1 ==> !(#[trigger] s[j] == 0xFF && s[j + 1] == 0xD8),
    ensures
        pictures(s) == Seq::<Seq<u8>>::empty(),
        s.len() > 0 && s[s.len() - 1] == 0xFF ==> leftover(s) == seq![0xFFu8],
        s.len() == 0 || s[s.len() - 1] != 0xFF ==> leftover(s) == Seq::<u8>::empty(),
{
    assert forall|j: int| 0 <= j implies !#[trigger] pair_at(s, j, 0xFF, 0xD8) by {
        if j + 1 < s.len() {
            assert(!(s[j] == 0xFF && s[j + 1] == 0xD8));
        }
    }
    lemma_pair_none(s, 0, 0xFF, 0xD8);
}

/// What is wrong with a decoded picture, if anything, in this order: it could not be decoded, it has no header, it has another size than
/// the video, or its bytes are not red, green and blue. Otherwise it becomes a frame.
pub proof fn law_objection(r: Result<Picture, String>, w: int, h: int)
    ensures
        objection(r, w, h) is None <==> r is Ok && r->Ok_0.info is Some && r->Ok_0.info->0.width == w && r->Ok_0.info->0.height == h
            && r->Ok_0.info->0.format == PixelFormat::RGB24,
        r is Err ==> objection(r, w, h) == Some("JPEG 解码失败: "@ + r->Err_0@),
        r is Ok && r->Ok_0.info is None ==> objection(r, w, h) == Some("JPEG 缺少头信息"@),
{
}

/// The groups of a picture may be three blocks wide as soon as, behind a mark that may begin a frame's header, some component has 3 in
/// the upper half of its byte of sampling factors, and not otherwise. That of the first component is eleven bytes behind the mark, and
/// that of each other three further on.
pub proof fn law_three_wide(jpeg: Seq<u8>, i: int, k: int)
    requires
        0 <= i,
        0 <= k < 255,
        i + 11 + 3 * k < jpeg.len(),
    ensures
        jpeg[i] == 0xFF && jpeg[i + 1] / 16 == 0xC && k < jpeg[i + 9] && 48 <= jpeg[i + 11 + 3 * k] < 64 ==> may_be_three_wide(jpeg),
        jpeg[i] != 0xFF || jpeg[i + 1] / 16 != 0xC || k >= jpeg[i + 9] || !(48 <= jpeg[i + 11 + 3 * k] < 64) ==> !three_wide_at(jpeg, i, k),
        (forall|j: int| 0 <= j < jpeg.len() ==> #[trigger] jpeg[j] != 0xFF) ==> !may_be_three_wide(jpeg),
{
    let b = jpeg[i + 11 + 3 * k];
    assert((b / 16 == 3) == (48 <= b < 64));
    if jpeg[i] == 0xFF && jpeg[i + 1] / 16 == 0xC && k < jpeg[i + 9] && 48 <= b < 64 {
        assert(three_wide_at(jpeg, i, k));
    }
}

/// A picture whose header cannot be read is not refused for its size, nor is one whose components all come together.
pub proof fn law_too_large(jpeg: Seq<u8>)
    ensures
        jpeg_header(jpeg) is None ==> !too_large(jpeg),
        !may_scan_alone(jpeg) ==> !too_large(jpeg),
        jpeg_header(jpeg) is Some && may_scan_alone(jpeg) && jpeg_header(jpeg)->0.height > 65528 ==> too_large(jpeg),
        jpeg_header(jpeg) is Some && jpeg_header(jpeg)->0.height <= 65528 && !may_be_three_wide(jpeg) ==> !too_large(jpeg),
        jpeg_header(jpeg) is Some && jpeg_header(jpeg)->0.height <= 65528 && jpeg_header(jpeg)->0.width <= 65528 ==> !too_large(
            jpeg,
        ),
        jpeg_header(jpeg) is Some && may_scan_alone(jpeg) && may_be_three_wide(jpeg) && jpeg_header(jpeg)->0.width > 65528
            ==> too_large(jpeg),
{
}

} // verus!
