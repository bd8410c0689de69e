//! Inline image previews over the kitty graphics protocol: what is sent to the
//! terminal, and what a placeholder cell holds.
//!
//! An image is transmitted as base64 in chunks, placed virtually, and shown by
//! cells that hold placeholder characters. Every command asks for no response.
//! Under tmux each command travels inside a passthrough envelope.

use vstd::prelude::*;

use crate::style::Color;
use crate::text::{self, push_decimal, to_chars};

verus! {

/// Base64 characters per transmission chunk.
pub const CHUNK: usize = 4096;

/// Longest edge a preview keeps, in pixels.
pub const MAX_EDGE: u32 = 512;

/// The most pixels of eight-bit samples that are averaged into one.
pub const MAX_CELL: u64 = 16_810_048;

/// The most pixels of deeper samples that are averaged into one.
pub const MAX_DEEP_CELL: u64 = 65_536;

/// How a graphics-capable terminal is reached: directly, or wrapped in tmux's
/// passthrough envelope.
#[derive(Clone, Copy, Debug, PartialEq, Eq, Structural)]
pub struct Emitter {
    pub tmux: bool,
}

/// The base64 character of a group of six bits.
pub open spec fn sextet(n: nat) -> char {
    if n < 26 {
        ('A' as nat + n) as char
    } else if n < 52 {
        ('a' as nat + (n - 26)) as char
    } else if n < 62 {
        ('0' as nat + (n - 52)) as char
    } else if n == 62 {
        '+'
    } else {
        '/'
    }
}

/// Bytes in base64, padded: four characters for every three bytes begun.
pub open spec fn base64(bytes: Seq<u8>) -> Seq<char>
    decreases bytes.len(),
{
    if bytes.len() == 0 {
        Seq::empty()
    } else if bytes.len() == 1 {
        let n = bytes[0] as nat * 16;
        seq![sextet(n / 64), sextet(n % 64), '=', '=']
    } else if bytes.len() == 2 {
        let n = (bytes[0] as nat * 256 + bytes[1] as nat) * 4;
        seq![sextet(n / 4096), sextet((n / 64) % 64), sextet(n % 64), '=']
    } else {
        let n = bytes[0] as nat * 65536 + bytes[1] as nat * 256 + bytes[2] as nat;
        seq![
            sextet(n / 262144),
            sextet((n / 4096) % 64),
            sextet((n / 64) % 64),
            sextet(n % 64),
        ] + base64(bytes.skip(3))
    }
}

/// The base64 character of six bits; see [`sextet`].
fn sextet_char(n: u32) -> (c: char)
    requires
        n < 64,
    ensures
        c == sextet(n as nat),
{
    if n < 26 {
        (65u8 + n as u8) as char
    } else if n < 52 {
        (97u8 + (n - 26) as u8) as char
    } else if n < 62 {
        (48u8 + (n - 52) as u8) as char
    } else if n == 62 {
        '+'
    } else {
        '/'
    }
}

/// Writes bytes in base64; see [`base64`].
pub fn encode_base64(bytes: &[u8]) -> (out: Vec<char>)
    ensures
        out@ == base64(bytes@),
{
    let mut out: Vec<char> = Vec::new();
    let mut i: usize = 0;
    let n: usize = bytes.len();
    assert(bytes@.skip(0) =~= bytes@);
    assert(out@ + base64(bytes@) =~= base64(bytes@));
    while i < n && n - i >= 3
        invariant
            i <= n,
            n == bytes@.len(),
            base64(bytes@) == out@ + base64(bytes@.skip(i as int)),
        decreases n - i,
    {
        let ghost rest = bytes@.skip(i as int);
        let ghost before = out@;
        let group: u32 = bytes[i] as u32 * 65536 + bytes[i + 1] as u32 * 256 + bytes[i + 2] as u32;
        assert(rest[0] == bytes@[i as int] && rest[1] == bytes@[i + 1] && rest[2] == bytes@[i + 2]);
        out.push(sextet_char(group / 262144));
        out.push(sextet_char((group / 4096) % 64));
        out.push(sextet_char((group / 64) % 64));
        out.push(sextet_char(group % 64));
        assert(rest.skip(3) =~= bytes@.skip(i + 3));
        let ghost four = seq![
            sextet(group as nat / 262144),
            sextet((group as nat / 4096) % 64),
            sextet((group as nat / 64) % 64),
            sextet(group as nat % 64),
        ];
        assert(base64(rest) == four + base64(rest.skip(3)));
        assert(out@ =~= before + four);
        assert(before + (four + base64(rest.skip(3))) =~= out@ + base64(bytes@.skip(i + 3)));
        i += 3;
    }
    let ghost rest = bytes@.skip(i as int);
    let ghost before = out@;
    if i < n {
        if n - i == 1 {
            let group: u32 = bytes[i] as u32 * 16;
            assert(rest[0] == bytes@[i as int]);
            out.push(sextet_char(group / 64));
            out.push(sextet_char(group % 64));
            out.push('=');
            out.push('=');
        } else {
            let group: u32 = (bytes[i] as u32 * 256 + bytes[i + 1] as u32) * 4;
            assert(rest[0] == bytes@[i as int] && rest[1] == bytes@[i + 1]);
            out.push(sextet_char(group / 4096));
            out.push(sextet_char((group / 64) % 64));
            out.push(sextet_char(group % 64));
            out.push('=');
        }
    }
    assert(out@ =~= before + base64(rest));
    out
}

/// Four characters stand for every three bytes, the last of them begun or not.
pub proof fn law_base64_has_four_for_three(bytes: Seq<u8>)
    ensures
        base64(bytes).len() == 4 * ((bytes.len() + 2) / 3),
    decreases bytes.len(),
{
    if bytes.len() > 2 {
        law_base64_has_four_for_three(bytes.skip(3));
    }
}

/// A text with every escape character doubled.
pub open spec fn doubled(s: Seq<char>) -> Seq<char>
    decreases s.len(),
{
    if s.len() == 0 {
        Seq::empty()
    } else if s.last() == '\x1b' {
        doubled(s.drop_last()).push('\x1b').push('\x1b')
    } else {
        doubled(s.drop_last()).push(s.last())
    }
}

impl Emitter {
    /// A command as the terminal must receive it: bare, or inside tmux's
    /// passthrough envelope with every inner escape doubled.
    pub open spec fn enveloped(self, apc: Seq<char>) -> Seq<char> {
        if self.tmux {
            "\x1bPtmux;"@ + doubled(apc) + "\x1b\\"@
        } else {
            apc
        }
    }

    /// The command of one chunk: the first carries the control data, and all
    /// say whether more follow.
    pub open spec fn chunk_command(id: u32, first: bool, more: bool, chunk: Seq<char>) -> Seq<char> {
        (if first {
            "\x1b_Ga=t,f=100,t=d,i="@ + text::decimal(id as nat) + ",q=2,m="@
        } else {
            "\x1b_Gm="@
        }) + (if more {
            "1"@
        } else {
            "0"@
        }) + ";"@ + chunk + "\x1b\\"@
    }

    /// The commands of a payload, or of what is left of it behind the first
    /// chunks.
    pub open spec fn commands(self, id: u32, payload: Seq<char>, first: bool) -> Seq<char>
        decreases payload.len(),
    {
        if payload.len() == 0 {
            Seq::empty()
        } else if payload.len() <= CHUNK {
            self.enveloped(Emitter::chunk_command(id, first, false, payload))
        } else {
            self.enveloped(
                Emitter::chunk_command(id, first, true, payload.take(CHUNK as int)),
            ) + self.commands(id, payload.skip(CHUNK as int), false)
        }
    }

    /// The emitter an environment supports: none where no kitty ancestor is
    /// present.
    pub fn detect(kitty: bool, tmux: bool) -> (r: Option<Emitter>)
        ensures
            r == (if kitty {
                Some(Emitter { tmux })
            } else {
                None
            }),
    {
        if kitty {
            Some(Emitter { tmux })
        } else {
            None
        }
    }

    /// An emitter that reaches the terminal directly.
    pub fn direct() -> (e: Emitter)
        ensures
            e == (Emitter { tmux: false }),
    {
        Emitter { tmux: false }
    }

    /// Transmits an image under an id, in chunks of base64; see
    /// [`Emitter::commands`].
    pub fn transmit(&self, id: u32, png: &[u8]) -> (wire: String)
        ensures
            wire@ == self.commands(id, base64(png@), true),
    {
        let payload = encode_base64(png);
        let ghost all = payload@;
        let mut wire = String::new();
        let mut from: usize = 0;
        assert(all.skip(0) =~= all);
        assert(wire@ + self.commands(id, all, true) =~= self.commands(id, all, true));
        while from < payload.len()
            invariant
                from <= payload@.len(),
                payload@ == all,
                self.commands(id, all, true) == wire@ + self.commands(
                    id,
                    all.skip(from as int),
                    from == 0,
                ),
            decreases payload.len() - from,
        {
            let ghost rest = all.skip(from as int);
            let more = payload.len() - from > CHUNK;
            let to: usize = if more {
                from + CHUNK
            } else {
                payload.len()
            };
            let mut apc = String::new();
            if from == 0 {
                apc.push_str("\x1b_Ga=t,f=100,t=d,i=");
                push_decimal(&mut apc, id as u64);
                apc.push_str(",q=2,m=");
            } else {
                apc.push_str("\x1b_Gm=");
            }
            apc.push_str(
                if more {
                    "1"
                } else {
                    "0"
                },
            );
            apc.push_str(";");
            let ghost head = apc@;
            let mut k: usize = from;
            assert(apc@ =~= head + all.subrange(from as int, from as int));
            while k < to
                invariant
                    from <= k <= to <= payload@.len(),
                    payload@ == all,
                    apc@ == head + all.subrange(from as int, k as int),
                decreases to - k,
            {
                apc.push(payload[k]);
                k += 1;
                assert(apc@ =~= head + all.subrange(from as int, k as int));
            }
            apc.push_str("\x1b\\");
            let ghost chunk = all.subrange(from as int, to as int);
            assert(chunk =~= if more {
                rest.take(CHUNK as int)
            } else {
                rest
            });
            assert(apc@ =~= Emitter::chunk_command(id, from == 0, more, chunk));
            let ghost before = wire@;
            let ghost later = self.commands(id, all.skip(to as int), false);
            let wrapped = self.wrapped(&apc);
            wire.push_str(&wrapped);
            assert(all.skip(to as int) =~= if more {
                rest.skip(CHUNK as int)
            } else {
                Seq::empty()
            });
            assert(self.commands(id, rest, from == 0) =~= wrapped@ + later);
            assert(before + (wrapped@ + later) =~= wire@ + later);
            from = to;
        }
        assert(wire@ + self.commands(id, all.skip(from as int), from == 0) =~= wire@);
        wire
    }

    /// Creates the virtual placement that placeholder cells refer to, of this
    /// many cells.
    pub fn virtual_placement(&self, id: u32, columns: u16, rows: u16) -> (s: String)
        ensures
            s@ == self.enveloped(
                "\x1b_Ga=p,U=1,i="@ + text::decimal(id as nat) + ",c="@ + text::decimal(
                    columns as nat,
                ) + ",r="@ + text::decimal(rows as nat) + ",q=2\x1b\\"@,
            ),
    {
        let mut apc = String::new();
        apc.push_str("\x1b_Ga=p,U=1,i=");
        push_decimal(&mut apc, id as u64);
        apc.push_str(",c=");
        push_decimal(&mut apc, columns as u64);
        apc.push_str(",r=");
        push_decimal(&mut apc, rows as u64);
        apc.push_str(",q=2\x1b\\");
        assert(apc@ =~= "\x1b_Ga=p,U=1,i="@ + text::decimal(id as nat) + ",c="@ + text::decimal(
            columns as nat,
        ) + ",r="@ + text::decimal(rows as nat) + ",q=2\x1b\\"@);
        self.wrapped(&apc)
    }

    /// Deletes every placement.
    pub fn delete_all(&self) -> (s: String)
        ensures
            s@ == self.enveloped("\x1b_Ga=d,d=a,q=2\x1b\\"@),
    {
        self.wrapped("\x1b_Ga=d,d=a,q=2\x1b\\")
    }

    /// A command as the terminal must receive it; see [`Emitter::enveloped`].
    fn wrapped(&self, apc: &str) -> (s: String)
        ensures
            s@ == self.enveloped(apc@),
    {
        if !self.tmux {
            return apc.to_string();
        }
        let chars = to_chars(apc);
        let mut s = String::new();
        s.push_str("\x1bPtmux;");
        let ghost head = s@;
        let mut i: usize = 0;
        assert(s@ =~= head + doubled(chars@.take(0)));
        while i < chars.len()
            invariant
                i <= chars@.len(),
                s@ == head + doubled(chars@.take(i as int)),
            decreases chars.len() - i,
        {
            assert(chars@.take(i + 1).drop_last() =~= chars@.take(i as int));
            assert(chars@.take(i + 1).last() == chars@[i as int]);
            if chars[i] == '\x1b' {
                s.push('\x1b');
            }
            s.push(chars[i]);
            i += 1;
            assert(s@ =~= head + doubled(chars@.take(i as int)));
        }
        assert(chars@.take(i as int) =~= apc@);
        s.push_str("\x1b\\");
        assert(s@ =~= self.enveloped(apc@));
        s
    }
}

/// A command as the envelope gives it back: every escape character that stands
/// doubled, single.
pub open spec fn halved(s: Seq<char>) -> Seq<char>
    decreases s.len(),
{
    if s.len() == 0 {
        Seq::empty()
    } else if s.len() > 1 && s.last() == '\x1b' && s[s.len() - 2] == '\x1b' {
        halved(s.take(s.len() - 2)).push('\x1b')
    } else {
        halved(s.drop_last()).push(s.last())
    }
}

/// What tmux passes through is the command: undoing the doubling of the
/// envelope gives it back, whatever it holds.
pub proof fn law_the_envelope_keeps_the_command(apc: Seq<char>)
    ensures
        halved(doubled(apc)) == apc,
    decreases apc.len(),
{
    let wire = doubled(apc);
    if apc.len() == 0 {
        assert(halved(wire) =~= apc);
    } else {
        let front = apc.drop_last();
        law_the_envelope_keeps_the_command(front);
        if apc.last() == '\x1b' {
            assert(wire.take(wire.len() - 2) =~= doubled(front));
        } else {
            assert(wire.drop_last() =~= doubled(front));
        }
        assert(halved(wire) =~= apc);
    }
}

/// The base character of an image placeholder.
pub const PLACEHOLDER: char = '\u{10EEEE}';

/// The diacritics that number the rows and columns of a placement, in order.
pub open spec fn diacritics() -> Seq<char> {
    seq![
        '\u{0305}', '\u{030D}', '\u{030E}', '\u{0310}', '\u{0312}', '\u{033D}', '\u{033E}', '\u{033F}',
        '\u{0346}', '\u{034A}', '\u{034B}', '\u{034C}', '\u{0350}', '\u{0351}', '\u{0352}', '\u{0357}',
        '\u{035B}', '\u{0363}', '\u{0364}', '\u{0365}', '\u{0366}', '\u{0367}', '\u{0368}', '\u{0369}',
        '\u{036A}', '\u{036B}', '\u{036C}', '\u{036D}', '\u{036E}', '\u{036F}', '\u{0483}', '\u{0484}',
        '\u{0485}', '\u{0486}', '\u{0487}', '\u{0592}', '\u{0593}', '\u{0594}', '\u{0595}', '\u{0597}',
        '\u{0598}', '\u{0599}', '\u{059C}', '\u{059D}', '\u{059E}', '\u{059F}', '\u{05A0}', '\u{05A1}',
        '\u{05A8}', '\u{05A9}', '\u{05AB}', '\u{05AC}', '\u{05AF}', '\u{05C4}', '\u{0610}', '\u{0611}',
        '\u{0612}', '\u{0613}', '\u{0614}', '\u{0615}', '\u{0616}', '\u{0617}', '\u{0657}', '\u{0658}',
    ]
}

/// The diacritics that number rows and columns; see [`diacritics`].
fn diacritic_table() -> (table: Vec<char>)
    ensures
        table@ == diacritics(),
        table@.len() == 64,
{
    let table = vec![
        '\u{0305}', '\u{030D}', '\u{030E}', '\u{0310}', '\u{0312}', '\u{033D}', '\u{033E}', '\u{033F}',
        '\u{0346}', '\u{034A}', '\u{034B}', '\u{034C}', '\u{0350}', '\u{0351}', '\u{0352}', '\u{0357}',
        '\u{035B}', '\u{0363}', '\u{0364}', '\u{0365}', '\u{0366}', '\u{0367}', '\u{0368}', '\u{0369}',
        '\u{036A}', '\u{036B}', '\u{036C}', '\u{036D}', '\u{036E}', '\u{036F}', '\u{0483}', '\u{0484}',
        '\u{0485}', '\u{0486}', '\u{0487}', '\u{0592}', '\u{0593}', '\u{0594}', '\u{0595}', '\u{0597}',
        '\u{0598}', '\u{0599}', '\u{059C}', '\u{059D}', '\u{059E}', '\u{059F}', '\u{05A0}', '\u{05A1}',
        '\u{05A8}', '\u{05A9}', '\u{05AB}', '\u{05AC}', '\u{05AF}', '\u{05C4}', '\u{0610}', '\u{0611}',
        '\u{0612}', '\u{0613}', '\u{0614}', '\u{0615}', '\u{0616}', '\u{0617}', '\u{0657}', '\u{0658}',
    ];
    assert(table@ =~= diacritics());
    table
}

/// One placeholder: the base character plus the diacritics that say which cell
/// of the placement this is, which repeat behind the last of them.
pub fn placeholder(row: u16, column: u16) -> (s: String)
    ensures
        s@ == seq![
            PLACEHOLDER,
            diacritics()[row as int % 64],
            diacritics()[column as int % 64],
        ],
{
    let table = diacritic_table();
    let mut s = String::new();
    s.push(PLACEHOLDER);
    s.push(table[row as usize % 64]);
    s.push(table[column as usize % 64]);
    assert(s@ =~= seq![
        PLACEHOLDER,
        diacritics()[row as int % 64],
        diacritics()[column as int % 64],
    ]);
    s
}

/// The foreground colour that carries an id to the terminal: its low
/// twenty-four bits.
pub open spec fn color_of(id: u32) -> Color {
    Color::Rgb(
        ((id / 65536) % 256) as u8,
        ((id / 256) % 256) as u8,
        (id % 256) as u8,
    )
}

/// The colour that carries an id; see [`color_of`].
pub fn id_color(id: u32) -> (c: Color)
    ensures
        c == color_of(id),
{
    Color::Rgb(((id / 65536) % 256) as u8, ((id / 256) % 256) as u8, (id % 256) as u8)
}

/// The id that a colour carries can be read back out of it, as far as it fits.
pub proof fn law_the_color_carries_the_id(id: u32)
    requires
        id < 16_777_216,
    ensures
        color_of(id) matches Color::Rgb(r, g, b) && r as nat * 65536 + g as nat * 256 + b as nat
            == id as nat,
{
}

/// How many columns an image takes that is this many rows tall, its aspect kept
/// under cells twice as tall as wide: at least one, and at most as many as can
/// be named.
pub open spec fn wide(width: nat, height: nat, rows: nat) -> nat {
    let h = if height == 0 {
        1
    } else {
        height
    };
    let columns = (width * rows * 2 + h - 1) as nat / h;
    if columns > u16::MAX {
        u16::MAX as nat
    } else if columns < 1 {
        1
    } else {
        columns
    }
}

/// The columns an image takes; see [`wide`].
pub fn columns_for(width: u32, height: u32, rows: u16) -> (n: u16)
    ensures
        n == wide(width as nat, height as nat, rows as nat),
{
    let h: u64 = if height == 0 {
        1
    } else {
        height as u64
    };
    assert(width as nat * rows as nat * 2 <= 0x1_0000_0000 * 0x1_0000 * 2) by (nonlinear_arith)
        requires
            width < 0x1_0000_0000,
            rows < 0x1_0000,
    ;
    assert(width as nat * rows as nat <= 0x1_0000_0000 * 0x1_0000) by (nonlinear_arith)
        requires
            width < 0x1_0000_0000,
            rows < 0x1_0000,
    ;
    let columns: u64 = (width as u64 * rows as u64 * 2 + h - 1) / h;
    if columns > 65535 {
        65535
    } else if columns < 1 {
        1
    } else {
        columns as u16
    }
}

/// A decoded image: its size, and four bytes for every pixel.
#[derive(Clone, Debug, PartialEq, Eq)]
pub struct Pixels {
    pub width: u32,
    pub height: u32,
    pub rgba: Vec<u8>,
}

/// The view of an optional decoded image.
pub open spec fn pixels_seen(pixels: Option<Pixels>) -> Option<(u32, u32, Seq<u8>)> {
    match pixels {
        Some(pixels) => Some((pixels.width, pixels.height, pixels.rgba@)),
        None => None,
    }
}

/// An image as it was decoded: its pixels, and the bits and channels of one in
/// the file.
#[derive(Clone, Debug, PartialEq, Eq)]
pub struct Decoded {
    pub pixels: Pixels,
    pub bits: u16,
    pub channels: u8,
}

/// The view of an optional image as it was decoded.
pub open spec fn decoded_seen(image: Option<Decoded>) -> Option<
    ((u32, u32, Seq<u8>), u16, u8),
> {
    match image {
        Some(image) => Some(
            (
                (image.pixels.width, image.pixels.height, image.pixels.rgba@),
                image.bits,
                image.channels,
            ),
        ),
        None => None,
    }
}

/// The image that the `image` crate decodes out of a file's bytes, in eight-bit
/// channels, and the bits and channels of a pixel before that; none where it
/// decodes none.
pub uninterp spec fn decoded(bytes: Seq<u8>) -> Option<((u32, u32, Seq<u8>), u16, u8)>;

/// `image::ImageReader::decode` on the format that the bytes are guessed to be
/// in, then `DynamicImage::to_rgba8` and `DynamicImage::color`: the pixels of an
/// image file, and how deep they are in it. They are named, not described, but
/// for their number: four bytes for every pixel, as `decode` sizes its buffer by
/// the image's dimensions.
#[verifier::external_body]
fn decode(bytes: &[u8]) -> (image: Option<Decoded>)
    ensures
        decoded_seen(image) == decoded(bytes@),
        image matches Some(image) ==> image.pixels.rgba@.len() == 4 * image.pixels.width
            * image.pixels.height,
{
    let reader = image::ImageReader::new(std::io::Cursor::new(bytes)).with_guessed_format().ok()?;
    let image = reader.decode().ok()?;
    let (bits, channels) = (image.color().bits_per_pixel(), image.color().channel_count());
    let rgba = image.to_rgba8();
    let (width, height) = (rgba.width(), rgba.height());
    Some(Decoded { pixels: Pixels { width, height, rgba: rgba.into_raw() }, bits, channels })
}

/// The least number of columns or rows that a side keeps in an image whose
/// longest side shrinks to [`MAX_EDGE`].
pub open spec fn kept_of(side: nat, longest: nat) -> nat {
    if side * MAX_EDGE as nat / longest > 1 {
        side * MAX_EDGE as nat / longest
    } else {
        1
    }
}

/// The most columns or rows of a side that are averaged into one. Where a cell
/// begins and ends is computed in single precision, which adds two to the
/// quotient at most, and one more for every `0x80_0000` of a long side.
pub open spec fn averaged_of(side: nat, longest: nat) -> nat {
    let most = side / kept_of(side, longest) + 2 + side / 0x80_0000;
    if most < side {
        most
    } else {
        side
    }
}

/// The most pixels that can be averaged into one: their samples are added up in
/// thirty-two bits, half their number on top, so it depends on how deep they are.
pub open spec fn max_cell(bits: u16, channels: u8) -> nat {
    if bits == 8 * channels {
        MAX_CELL as nat
    } else {
        MAX_DEEP_CELL as nat
    }
}

/// Whether the pixels averaged into one pixel of a thumbnail are few enough for
/// their sum.
pub open spec fn averageable(width: u32, height: u32, bits: u16, channels: u8) -> bool {
    let longest = if width > height {
        width as nat
    } else {
        height as nat
    };
    averaged_of(width as nat, longest) * averaged_of(height as nat, longest) <= max_cell(
        bits,
        channels,
    )
}

/// The image that the `image` crate makes of a file's bytes when it fits them
/// into a square of this edge.
pub uninterp spec fn fitted(bytes: Seq<u8>, edge: u32) -> Option<(u32, u32, Seq<u8>)>;

/// `image::DynamicImage::thumbnail` into a square of this edge, of the image
/// that `image::ImageReader::decode` reads: the pixels of it. They are named,
/// not described, but for their number, four bytes for every pixel. The sum of
/// the pixels that are averaged into one overflows where there are too many,
/// and other edges may take more memory than there is, so both are left out;
/// so is an image that would be enlarged.
#[verifier::external_body]
fn thumbnail(bytes: &[u8], edge: u32) -> (pixels: Option<Pixels>)
    requires
        edge == MAX_EDGE,
        decoded(bytes@) matches Some(((width, height, _), bits, channels)) && oversized(
            width,
            height,
        ) && averageable(width, height, bits, channels),
    ensures
        pixels_seen(pixels) == fitted(bytes@, edge),
        pixels matches Some(pixels) ==> pixels.rgba@.len() == 4 * pixels.width * pixels.height,
{
    let reader = image::ImageReader::new(std::io::Cursor::new(bytes)).with_guessed_format().ok()?;
    let rgba = reader.decode().ok()?.thumbnail(edge, edge).to_rgba8();
    Some(Pixels { width: rgba.width(), height: rgba.height(), rgba: rgba.into_raw() })
}

/// The PNG file that the `png` crate makes of four-byte pixels; none where it
/// refuses them.
pub uninterp spec fn png_of(width: u32, height: u32, rgba: Seq<u8>) -> Option<Seq<u8>>;

/// The view of optional bytes.
pub open spec fn bytes_seen(bytes: Option<Vec<u8>>) -> Option<Seq<u8>> {
    match bytes {
        Some(bytes) => Some(bytes@),
        None => None,
    }
}

/// `png::Encoder` with eight-bit RGBA, then `png::Writer::write_image_data`:
/// the PNG file of these pixels. It is named, not described. The encoder
/// multiplies the two sides unchecked, so sides that the pixels do not fill are
/// left out.
#[verifier::external_body]
fn encode_png(width: u32, height: u32, rgba: &[u8]) -> (bytes: Option<Vec<u8>>)
    requires
        rgba@.len() == 4 * width * height,
    ensures
        bytes_seen(bytes) == png_of(width, height, rgba@),
{
    let mut out = Vec::new();
    let mut encoder = png::Encoder::new(&mut out, width, height);
    encoder.set_color(png::ColorType::Rgba);
    encoder.set_depth(png::BitDepth::Eight);
    let mut writer = encoder.write_header().ok()?;
    writer.write_image_data(rgba).ok()?;
    drop(writer);
    Some(out)
}

/// A preview's transmissible form.
#[derive(Clone, Debug, PartialEq, Eq)]
pub struct Preview {
    /// The thumbnail as a PNG file.
    pub png: Vec<u8>,
    /// Thumbnail width in pixels.
    pub width: u32,
    /// Thumbnail height in pixels.
    pub height: u32,
}

/// Whether an image is too large to be shown as it is.
pub open spec fn oversized(width: u32, height: u32) -> bool {
    width > MAX_EDGE || height > MAX_EDGE
}

/// Whether an image is too large to be shown as it is; see [`oversized`].
pub fn is_oversized(width: u32, height: u32) -> (r: bool)
    ensures
        r == oversized(width, height),
{
    width > MAX_EDGE || height > MAX_EDGE
}

/// The fewest columns or rows a side keeps; see [`kept_of`].
fn kept(side: u32, longest: u32) -> (n: u64)
    requires
        longest > 0,
    ensures
        n == kept_of(side as nat, longest as nat),
        n >= 1,
{
    let n: u64 = side as u64 * MAX_EDGE as u64 / longest as u64;
    if n > 1 {
        n
    } else {
        1
    }
}

/// The most columns or rows averaged into one; see [`averaged_of`].
fn averaged(side: u32, longest: u32) -> (n: u64)
    requires
        longest > 0,
    ensures
        n == averaged_of(side as nat, longest as nat),
        n <= side,
{
    let n: u64 = side as u64 / kept(side, longest) + 2 + side as u64 / 0x80_0000;
    if n < side as u64 {
        n
    } else {
        side as u64
    }
}

/// Whether an image can be averaged down; see [`averageable`].
pub fn is_averageable(width: u32, height: u32, bits: u16, channels: u8) -> (r: bool)
    requires
        oversized(width, height),
    ensures
        r == averageable(width, height, bits, channels),
{
    let longest = if width > height {
        width
    } else {
        height
    };
    let columns = averaged(width, longest);
    let rows = averaged(height, longest);
    assert(columns * rows <= 0xffff_ffff * 0xffff_ffff) by (nonlinear_arith)
        requires
            columns <= 0xffff_ffff,
            rows <= 0xffff_ffff,
    ;
    let most: u64 = if bits == 8 * channels as u16 {
        MAX_CELL
    } else {
        MAX_DEEP_CELL
    };
    columns * rows <= most
}

/// The pixels a preview shows, given an image and its thumbnail: the image, or
/// the thumbnail where it is too large. A small image is never inflated, and
/// one too large to be averaged down is not shown.
pub open spec fn previewed(
    whole: Option<((u32, u32, Seq<u8>), u16, u8)>,
    small: Option<(u32, u32, Seq<u8>)>,
) -> Option<(u32, u32, Seq<u8>)> {
    match whole {
        Some((pixels, bits, channels)) => if !oversized(pixels.0, pixels.1) {
            Some(pixels)
        } else if averageable(pixels.0, pixels.1, bits, channels) {
            small
        } else {
            None
        },
        None => None,
    }
}

/// Decodes an image file, bounds its longest edge with its aspect kept, and
/// makes a PNG file of it for transmission; none where that fails.
pub fn load(bytes: &[u8]) -> (r: Option<Preview>)
    ensures
        match previewed(decoded(bytes@), fitted(bytes@, MAX_EDGE)) {
            None => r is None,
            Some((width, height, rgba)) => match png_of(width, height, rgba) {
                None => r is None,
                Some(file) => r matches Some(preview) && preview.width == width && preview.height
                    == height && preview.png@ == file,
            },
        },
{
    let image = match decode(bytes) {
        Some(image) => image,
        None => {
            return None;
        },
    };
    let whole = image.pixels;
    let shown = if is_oversized(whole.width, whole.height) {
        if !is_averageable(whole.width, whole.height, image.bits, image.channels) {
            return None;
        }
        match thumbnail(bytes, MAX_EDGE) {
            Some(pixels) => pixels,
            None => {
                return None;
            },
        }
    } else {
        whole
    };
    match encode_png(shown.width, shown.height, &shown.rgba) {
        Some(png) => Some(Preview { png, width: shown.width, height: shown.height }),
        None => None,
    }
}

/// The base64 alphabet, each character in the place of the number it stands
/// for.
pub open spec fn alphabet() -> Seq<char> {
    "ABCDEFGHIJKLMNOPQRSTUVWXYZabcdefghijklmnopqrstuvwxyz0123456789+/"@
}

/// The number a base64 character stands for, a pad counting nothing.
pub open spec fn worth(c: char) -> int {
    if c == '=' {
        0
    } else {
        text::first_of(alphabet(), c)
    }
}

/// What four characters of base64 stand for, as one number.
pub open spec fn four_worth(s: Seq<char>) -> int {
    ((worth(s[0]) * 64 + worth(s[1])) * 64 + worth(s[2])) * 64 + worth(s[3])
}

/// The bytes that base64 stands for: three for every four characters, but for
/// the pads.
pub open spec fn unbase64(s: Seq<char>) -> Seq<int>
    decreases s.len(),
{
    if s.len() < 4 {
        Seq::empty()
    } else {
        let n = four_worth(s);
        let three = seq![n / 65536, (n / 256) % 256, n % 256];
        (if s[2] == '=' {
            three.take(1)
        } else if s[3] == '=' {
            three.take(2)
        } else {
            three
        }) + unbase64(s.skip(4))
    }
}

/// A group of six bits is written as the character of the alphabet in its
/// place, and no two groups are written alike.
pub proof fn law_sextets_go_by_the_alphabet(n: nat)
    requires
        n < 64,
    ensures
        alphabet().len() == 64,
        sextet(n) == alphabet()[n as int],
        worth(sextet(n)) == n,
        sextet(n) != '=',
{
    lemma_alphabet();
    assert forall|i: int| 0 <= i < n implies alphabet()[i] != sextet(n) by {
        assert(alphabet()[i] == sextet(i as nat));
        lemma_sextets_differ(i as nat, n);
    }
    assert(alphabet()[n as int] == sextet(n as nat));
    text::lemma_first_of_unique(alphabet(), sextet(n), n as int);
}

/// What a group of six bits is written as, in numbers.
proof fn lemma_sextet(n: nat)
    requires
        n < 64,
    ensures
        sextet(n) as int == (if n < 26 {
            n as int + 65
        } else if n < 52 {
            n as int + 71
        } else if n < 62 {
            n as int - 4
        } else if n == 62 {
            43
        } else {
            47
        }),
{
}

proof fn lemma_sextets_differ(m: nat, n: nat)
    requires
        m < n < 64,
    ensures
        sextet(m) != sextet(n),
{
    lemma_sextet(m);
    lemma_sextet(n);
}

proof fn lemma_alphabet()
    ensures
        alphabet().len() == 64,
        forall|i: int| 0 <= i < 64 ==> #[trigger] alphabet()[i] == sextet(i as nat),
{
    reveal_strlit("ABCDEFGHIJKLMNOPQRSTUVWXYZabcdefghijklmnopqrstuvwxyz0123456789+/");
    assert(alphabet()[0] == 'A' && sextet(0) == 'A');
    assert(alphabet()[1] == 'B' && sextet(1) == 'B');
    assert(alphabet()[2] == 'C' && sextet(2) == 'C');
    assert(alphabet()[3] == 'D' && sextet(3) == 'D');
    assert(alphabet()[4] == 'E' && sextet(4) == 'E');
    assert(alphabet()[5] == 'F' && sextet(5) == 'F');
    assert(alphabet()[6] == 'G' && sextet(6) == 'G');
    assert(alphabet()[7] == 'H' && sextet(7) == 'H');
    assert(alphabet()[8] == 'I' && sextet(8) == 'I');
    assert(alphabet()[9] == 'J' && sextet(9) == 'J');
    assert(alphabet()[10] == 'K' && sextet(10) == 'K');
    assert(alphabet()[11] == 'L' && sextet(11) == 'L');
    assert(alphabet()[12] == 'M' && sextet(12) == 'M');
    assert(alphabet()[13] == 'N' && sextet(13) == 'N');
    assert(alphabet()[14] == 'O' && sextet(14) == 'O');
    assert(alphabet()[15] == 'P' && sextet(15) == 'P');
    assert(alphabet()[16] == 'Q' && sextet(16) == 'Q');
    assert(alphabet()[17] == 'R' && sextet(17) == 'R');
    assert(alphabet()[18] == 'S' && sextet(18) == 'S');
    assert(alphabet()[19] == 'T' && sextet(19) == 'T');
    assert(alphabet()[20] == 'U' && sextet(20) == 'U');
    assert(alphabet()[21] == 'V' && sextet(21) == 'V');
    assert(alphabet()[22] == 'W' && sextet(22) == 'W');
    assert(alphabet()[23] == 'X' && sextet(23) == 'X');
    assert(alphabet()[24] == 'Y' && sextet(24) == 'Y');
    assert(alphabet()[25] == 'Z' && sextet(25) == 'Z');
    assert(alphabet()[26] == 'a' && sextet(26) == 'a');
    assert(alphabet()[27] == 'b' && sextet(27) == 'b');
    assert(alphabet()[28] == 'c' && sextet(28) == 'c');
    assert(alphabet()[29] == 'd' && sextet(29) == 'd');
    assert(alphabet()[30] == 'e' && sextet(30) == 'e');
    assert(alphabet()[31] == 'f' && sextet(31) == 'f');
    assert(alphabet()[32] == 'g' && sextet(32) == 'g');
    assert(alphabet()[33] == 'h' && sextet(33) == 'h');
    assert(alphabet()[34] == 'i' && sextet(34) == 'i');
    assert(alphabet()[35] == 'j' && sextet(35) == 'j');
    assert(alphabet()[36] == 'k' && sextet(36) == 'k');
    assert(alphabet()[37] == 'l' && sextet(37) == 'l');
    assert(alphabet()[38] == 'm' && sextet(38) == 'm');
    assert(alphabet()[39] == 'n' && sextet(39) == 'n');
    assert(alphabet()[40] == 'o' && sextet(40) == 'o');
    assert(alphabet()[41] == 'p' && sextet(41) == 'p');
    assert(alphabet()[42] == 'q' && sextet(42) == 'q');
    assert(alphabet()[43] == 'r' && sextet(43) == 'r');
    assert(alphabet()[44] == 's' && sextet(44) == 's');
    assert(alphabet()[45] == 't' && sextet(45) == 't');
    assert(alphabet()[46] == 'u' && sextet(46) == 'u');
    assert(alphabet()[47] == 'v' && sextet(47) == 'v');
    assert(alphabet()[48] == 'w' && sextet(48) == 'w');
    assert(alphabet()[49] == 'x' && sextet(49) == 'x');
    assert(alphabet()[50] == 'y' && sextet(50) == 'y');
    assert(alphabet()[51] == 'z' && sextet(51) == 'z');
    assert(alphabet()[52] == '0' && sextet(52) == '0');
    assert(alphabet()[53] == '1' && sextet(53) == '1');
    assert(alphabet()[54] == '2' && sextet(54) == '2');
    assert(alphabet()[55] == '3' && sextet(55) == '3');
    assert(alphabet()[56] == '4' && sextet(56) == '4');
    assert(alphabet()[57] == '5' && sextet(57) == '5');
    assert(alphabet()[58] == '6' && sextet(58) == '6');
    assert(alphabet()[59] == '7' && sextet(59) == '7');
    assert(alphabet()[60] == '8' && sextet(60) == '8');
    assert(alphabet()[61] == '9' && sextet(61) == '9');
    assert(alphabet()[62] == '+' && sextet(62) == '+');
    assert(alphabet()[63] == '/' && sextet(63) == '/');
}

/// The four groups of six bits of a number of three bytes make it up.
proof fn lemma_four(n: nat)
    requires
        n < 16_777_216,
    ensures
        n / 262144 < 64,
        ((n / 262144 * 64 + (n / 4096) % 64) * 64 + (n / 64) % 64) * 64 + n % 64 == n,
{
}

/// The base64 of a last byte stands for it.
proof fn lemma_one_reads_back(bytes: Seq<u8>)
    requires
        bytes.len() == 1,
    ensures
        base64(bytes).len() == 4,
        base64(bytes)[2] == '=',
        base64(bytes)[3] == '=',
        four_worth(base64(bytes)) == bytes[0] * 65536,
{
    let n = bytes[0] as nat * 16;
    assert(n / 64 < 64 && n / 64 * 64 + n % 64 == n);
    law_sextets_go_by_the_alphabet(n / 64);
    law_sextets_go_by_the_alphabet(n % 64);
    let s = base64(bytes);
    assert(worth(s[0]) == n / 64);
    assert(worth(s[1]) == n % 64);
    assert(worth(s[2]) == 0 && worth(s[3]) == 0);
}

/// The base64 of the last two bytes stands for them.
proof fn lemma_two_read_back(bytes: Seq<u8>)
    requires
        bytes.len() == 2,
    ensures
        base64(bytes).len() == 4,
        base64(bytes)[2] != '=',
        base64(bytes)[3] == '=',
        four_worth(base64(bytes)) == bytes[0] * 65536 + bytes[1] * 256,
{
    let n = (bytes[0] as nat * 256 + bytes[1] as nat) * 4;
    assert(n / 4096 < 64 && (n / 4096 * 64 + (n / 64) % 64) * 64 + n % 64 == n);
    law_sextets_go_by_the_alphabet(n / 4096);
    law_sextets_go_by_the_alphabet((n / 64) % 64);
    law_sextets_go_by_the_alphabet(n % 64);
    let s = base64(bytes);
    assert(worth(s[0]) == n / 4096);
    assert(worth(s[1]) == (n / 64) % 64);
    assert(worth(s[2]) == n % 64);
    assert(worth(s[3]) == 0);
}

/// The first four characters of base64 stand for the first three bytes.
proof fn lemma_three_read_back(bytes: Seq<u8>)
    requires
        bytes.len() > 2,
    ensures
        base64(bytes).len() >= 4,
        base64(bytes)[2] != '=',
        base64(bytes)[3] != '=',
        four_worth(base64(bytes)) == bytes[0] * 65536 + bytes[1] * 256 + bytes[2],
        base64(bytes).skip(4) == base64(bytes.skip(3)),
{
    let n = bytes[0] as nat * 65536 + bytes[1] as nat * 256 + bytes[2] as nat;
    lemma_four(n);
    law_sextets_go_by_the_alphabet(n / 262144);
    law_sextets_go_by_the_alphabet((n / 4096) % 64);
    law_sextets_go_by_the_alphabet((n / 64) % 64);
    law_sextets_go_by_the_alphabet(n % 64);
    let s = base64(bytes);
    assert(worth(s[0]) == n / 262144);
    assert(worth(s[1]) == (n / 4096) % 64);
    assert(worth(s[2]) == (n / 64) % 64);
    assert(worth(s[3]) == n % 64);
    assert(s.skip(4) =~= base64(bytes.skip(3)));
}

/// Three bytes come back out of the number they make up.
proof fn lemma_bytes_of(a: int, b: int, c: int, v: int)
    requires
        0 <= a < 256,
        0 <= b < 256,
        0 <= c < 256,
        v == a * 65536 + b * 256 + c,
    ensures
        v / 65536 == a,
        (v / 256) % 256 == b,
        v % 256 == c,
{
}

/// Base64 loses nothing: the bytes it stands for are the bytes it was made of.
pub proof fn law_base64_reads_back(bytes: Seq<u8>)
    ensures
        unbase64(base64(bytes)) == Seq::new(bytes.len(), |i: int| bytes[i] as int),
    decreases bytes.len(),
{
    let s = base64(bytes);
    let whole = Seq::new(bytes.len(), |i: int| bytes[i] as int);
    if bytes.len() == 0 {
        assert(unbase64(s) =~= whole);
    } else {
        let v = four_worth(s);
        let three = seq![v / 65536, (v / 256) % 256, v % 256];
        if bytes.len() == 1 {
            lemma_one_reads_back(bytes);
            lemma_bytes_of(bytes[0] as int, 0, 0, v);
            assert(s.skip(4) =~= Seq::<char>::empty());
            assert(unbase64(s.skip(4)) =~= Seq::<int>::empty());
            assert(unbase64(s) =~= three.take(1));
            assert(three.take(1) =~= whole);
        } else if bytes.len() == 2 {
            lemma_two_read_back(bytes);
            lemma_bytes_of(bytes[0] as int, bytes[1] as int, 0, v);
            assert(s.skip(4) =~= Seq::<char>::empty());
            assert(unbase64(s.skip(4)) =~= Seq::<int>::empty());
            assert(unbase64(s) =~= three.take(2));
            assert(three.take(2) =~= whole);
        } else {
            lemma_three_read_back(bytes);
            lemma_bytes_of(bytes[0] as int, bytes[1] as int, bytes[2] as int, v);
            let rest = bytes.skip(3);
            law_base64_reads_back(rest);
            let tail = Seq::new(rest.len(), |i: int| rest[i] as int);
            assert(unbase64(s) == three + tail);
            assert(three + tail =~= whole);
        }
    }
}

/// What a command carries: all between its first semicolon and the escape that
/// closes it.
pub open spec fn payload_of(command: Seq<char>) -> Seq<char> {
    command.subrange(text::first_of(command, ';') + 1, command.len() - 2)
}

/// Whether a text is one graphics command: it opens with an escape, an
/// underscore and a `G`, and its first escape behind that closes it.
pub open spec fn is_command(command: Seq<char>) -> bool {
    &&& command.len() >= 5
    &&& command.take(3) == seq!['\x1b', '_', 'G']
    &&& command.skip(command.len() - 2) == seq!['\x1b', '\\']
    &&& forall|i: int| 1 <= i < command.len() - 2 ==> #[trigger] command[i] != '\x1b'
}

/// Texts put together in order.
pub open spec fn together(texts: Seq<Seq<char>>) -> Seq<char>
    decreases texts.len(),
{
    if texts.len() == 0 {
        Seq::empty()
    } else {
        texts[0] + together(texts.skip(1))
    }
}

impl Emitter {
    /// The commands of a payload one by one, before anything wraps them.
    pub open spec fn sent(id: u32, payload: Seq<char>, first: bool) -> Seq<Seq<char>>
        decreases payload.len(),
    {
        if payload.len() == 0 {
            Seq::empty()
        } else if payload.len() <= CHUNK {
            seq![Emitter::chunk_command(id, first, false, payload)]
        } else {
            seq![Emitter::chunk_command(id, first, true, payload.take(CHUNK as int))]
                + Emitter::sent(id, payload.skip(CHUNK as int), false)
        }
    }
}

/// The payloads of commands, in order.
pub open spec fn payloads(commands: Seq<Seq<char>>) -> Seq<Seq<char>> {
    Seq::new(commands.len(), |k: int| payload_of(commands[k]))
}

/// Commands as an emitter wraps them, in order.
pub open spec fn wrapped_all(emitter: Emitter, commands: Seq<Seq<char>>) -> Seq<Seq<char>> {
    Seq::new(commands.len(), |k: int| emitter.enveloped(commands[k]))
}

/// A command carries its chunk, and nothing in front of it is an escape or a
/// semicolon but what opens it.
proof fn lemma_chunk_command(id: u32, first: bool, more: bool, chunk: Seq<char>)
    requires
        forall|i: int| 0 <= i < chunk.len() ==> #[trigger] chunk[i] != '\x1b',
    ensures
        is_command(Emitter::chunk_command(id, first, more, chunk)),
        payload_of(Emitter::chunk_command(id, first, more, chunk)) == chunk,
{
    reveal_strlit("\x1b_Ga=t,f=100,t=d,i=");
    reveal_strlit(",q=2,m=");
    reveal_strlit("\x1b_Gm=");
    reveal_strlit("1");
    reveal_strlit("0");
    reveal_strlit(";");
    reveal_strlit("\x1b\\");
    text::lemma_decimal(id as nat);
    let number = text::decimal(id as nat);
    let flag = if more {
        "1"@
    } else {
        "0"@
    };
    let opening = if first {
        "\x1b_Ga=t,f=100,t=d,i="@ + number + ",q=2,m="@
    } else {
        "\x1b_Gm="@
    };
    let front = opening + flag;
    assert forall|i: int| 0 <= i < number.len() implies #[trigger] number[i] != ';' && number[i]
        != '\x1b' by {
        assert(text::digit(number[i]));
    }
    assert forall|i: int| 0 <= i < front.len() implies #[trigger] front[i] != ';' && (i > 0
        ==> front[i] != '\x1b') by {
        if first {
            let n: int = "\x1b_Ga=t,f=100,t=d,i="@.len() as int;
            let m: int = n + number.len();
            if i < n {
                assert(front[i] == "\x1b_Ga=t,f=100,t=d,i="@[i]);
            } else if i < m {
                assert(front[i] == number[i - n]);
            } else if i < m + 7 {
                assert(front[i] == ",q=2,m="@[i - m]);
            } else {
                assert(front[i] == flag[0]);
            }
        } else if i < 5 {
            assert(front[i] == "\x1b_Gm="@[i]);
        } else {
            assert(front[i] == flag[0]);
        }
    }
    let command = Emitter::chunk_command(id, first, more, chunk);
    assert(command =~= front + seq![';'] + chunk + seq!['\x1b', '\\']);
    let at: int = front.len() as int;
    assert forall|i: int| 0 <= i < at implies command[i] != ';' by {
        assert(command[i] == front[i]);
    }
    text::lemma_first_of_unique(command, ';', at);
    assert(payload_of(command) =~= chunk);
    assert(command[0] == front[0] && command[1] == front[1] && command[2] == front[2]);
    assert(front[0] == opening[0] && front[1] == opening[1] && front[2] == opening[2]);
    assert(command.take(3) =~= seq!['\x1b', '_', 'G']);
    assert(command.skip(command.len() - 2) =~= seq!['\x1b', '\\']);
    assert forall|i: int| 1 <= i < command.len() - 2 implies #[trigger] command[i] != '\x1b' by {
        if i < at {
            assert(command[i] == front[i]);
        } else if i > at {
            assert(command[i] == chunk[i - at - 1]);
        }
    }
}

proof fn lemma_base64_has_no_escape(bytes: Seq<u8>)
    ensures
        forall|i: int| 0 <= i < base64(bytes).len() ==> #[trigger] base64(bytes)[i] != '\x1b',
    decreases bytes.len(),
{
    if bytes.len() > 2 {
        lemma_base64_has_no_escape(bytes.skip(3));
        let n = bytes[0] as nat * 65536 + bytes[1] as nat * 256 + bytes[2] as nat;
        lemma_sextet(n / 262144);
        lemma_sextet((n / 4096) % 64);
        lemma_sextet((n / 64) % 64);
        lemma_sextet(n % 64);
        let s = base64(bytes);
        assert forall|i: int| 0 <= i < s.len() implies #[trigger] s[i] != '\x1b' by {
            if i >= 4 {
                assert(s[i] == base64(bytes.skip(3))[i - 4]);
            }
        }
    } else if bytes.len() == 2 {
        let n = (bytes[0] as nat * 256 + bytes[1] as nat) * 4;
        lemma_sextet(n / 4096);
        lemma_sextet((n / 64) % 64);
        lemma_sextet(n % 64);
    } else if bytes.len() == 1 {
        let n = bytes[0] as nat * 16;
        lemma_sextet(n / 64);
        lemma_sextet(n % 64);
    }
}

proof fn lemma_sent(emitter: Emitter, id: u32, payload: Seq<char>, first: bool)
    requires
        forall|i: int| 0 <= i < payload.len() ==> #[trigger] payload[i] != '\x1b',
    ensures
        emitter.commands(id, payload, first) == together(
            wrapped_all(emitter, Emitter::sent(id, payload, first)),
        ),
        together(payloads(Emitter::sent(id, payload, first))) == payload,
        (Emitter::sent(id, payload, first).len() == 0) == (payload.len() == 0),
        forall|k: int|
            0 <= k < Emitter::sent(id, payload, first).len() ==> is_command(
                #[trigger] Emitter::sent(id, payload, first)[k],
            ),
        forall|k: int|
            0 <= k < Emitter::sent(id, payload, first).len() - 1 ==> payload_of(
                #[trigger] Emitter::sent(id, payload, first)[k],
            ).len() == 4096,
        payload.len() > 0 ==> 0 < payload_of(
            Emitter::sent(id, payload, first).last(),
        ).len() <= 4096,
    decreases payload.len(),
{
    let all = Emitter::sent(id, payload, first);
    if payload.len() == 0 {
        assert(together(payloads(all)) =~= payload);
    } else if payload.len() <= CHUNK {
        lemma_chunk_command(id, first, false, payload);
        reveal_with_fuel(together, 2);
        assert(payloads(all).skip(1) =~= Seq::<Seq<char>>::empty());
        assert(wrapped_all(emitter, all).skip(1) =~= Seq::<Seq<char>>::empty());
        assert(together(payloads(all)) =~= payload);
        assert(emitter.commands(id, payload, first) =~= together(wrapped_all(emitter, all)));
    } else {
        let chunk = payload.take(CHUNK as int);
        let rest = payload.skip(CHUNK as int);
        lemma_chunk_command(id, first, true, chunk);
        lemma_sent(emitter, id, rest, false);
        let later = Emitter::sent(id, rest, false);
        assert(all.skip(1) =~= later);
        assert(payloads(all).skip(1) =~= payloads(later));
        assert(wrapped_all(emitter, all).skip(1) =~= wrapped_all(emitter, later));
        assert(chunk + rest =~= payload);
        assert(all[0] == Emitter::chunk_command(id, first, true, chunk));
        assert forall|k: int| 0 <= k < all.len() implies is_command(#[trigger] all[k]) by {
            if k > 0 {
                assert(all[k] == later[k - 1]);
            }
        }
        assert forall|k: int| 0 <= k < all.len() - 1 implies payload_of(#[trigger] all[k]).len()
            == 4096 by {
            if k > 0 {
                assert(all[k] == later[k - 1]);
            }
        }
        assert(all.last() == later.last());
    }
}

/// Sending an image loses nothing. What goes out are whole commands, wrapped
/// one by one. What they carry, put together in order, is the base64 of the
/// bytes; all but the last carry 4096 characters of it, and the last one at
/// least one and no more than that.
pub proof fn law_the_commands_carry_the_bytes(emitter: Emitter, id: u32, bytes: Seq<u8>)
    ensures
        emitter.commands(id, base64(bytes), true) == together(
            wrapped_all(emitter, Emitter::sent(id, base64(bytes), true)),
        ),
        together(payloads(Emitter::sent(id, base64(bytes), true))) == base64(bytes),
        unbase64(together(payloads(Emitter::sent(id, base64(bytes), true)))) == Seq::new(
            bytes.len(),
            |i: int| bytes[i] as int,
        ),
        (Emitter::sent(id, base64(bytes), true).len() == 0) == (bytes.len() == 0),
        forall|k: int|
            0 <= k < Emitter::sent(id, base64(bytes), true).len() ==> is_command(
                #[trigger] Emitter::sent(id, base64(bytes), true)[k],
            ),
        forall|k: int|
            0 <= k < Emitter::sent(id, base64(bytes), true).len() - 1 ==> payload_of(
                #[trigger] Emitter::sent(id, base64(bytes), true)[k],
            ).len() == 4096,
        bytes.len() > 0 ==> 0 < payload_of(
            Emitter::sent(id, base64(bytes), true).last(),
        ).len() <= 4096,
{
    lemma_base64_has_no_escape(bytes);
    lemma_sent(emitter, id, base64(bytes), true);
    law_base64_has_four_for_three(bytes);
    law_base64_reads_back(bytes);
}

/// Whether a text opens with another.
pub open spec fn opens_with(s: Seq<char>, front: Seq<char>) -> bool {
    front.len() <= s.len() && s.take(front.len() as int) == front
}

/// What the commands say of themselves: the first that an image is transmitted
/// as a PNG file, directly, under its id and with no response asked for, and
/// each whether more follow.
pub proof fn law_the_commands_say_what_follows(id: u32, payload: Seq<char>, k: int)
    requires
        0 <= k < Emitter::sent(id, payload, true).len(),
    ensures
        k == 0 && Emitter::sent(id, payload, true).len() > 1 ==> opens_with(
            Emitter::sent(id, payload, true)[k],
            "\x1b_Ga=t,f=100,t=d,i="@ + text::decimal(id as nat) + ",q=2,m=1;"@,
        ),
        k == 0 && Emitter::sent(id, payload, true).len() == 1 ==> opens_with(
            Emitter::sent(id, payload, true)[k],
            "\x1b_Ga=t,f=100,t=d,i="@ + text::decimal(id as nat) + ",q=2,m=0;"@,
        ),
        0 < k < Emitter::sent(id, payload, true).len() - 1 ==> opens_with(
            Emitter::sent(id, payload, true)[k],
            "\x1b_Gm=1;"@,
        ),
        0 < k == Emitter::sent(id, payload, true).len() - 1 ==> opens_with(
            Emitter::sent(id, payload, true)[k],
            "\x1b_Gm=0;"@,
        ),
{
    lemma_flags(id, payload, true, k);
}

/// What stands in front of a chunk.
spec fn heading(id: u32, first: bool, more: bool) -> Seq<char> {
    match (first, more) {
        (true, true) => "\x1b_Ga=t,f=100,t=d,i="@ + text::decimal(id as nat) + ",q=2,m=1;"@,
        (true, false) => "\x1b_Ga=t,f=100,t=d,i="@ + text::decimal(id as nat) + ",q=2,m=0;"@,
        (false, true) => "\x1b_Gm=1;"@,
        (false, false) => "\x1b_Gm=0;"@,
    }
}

proof fn lemma_heading(id: u32, first: bool, more: bool, chunk: Seq<char>)
    ensures
        opens_with(Emitter::chunk_command(id, first, more, chunk), heading(id, first, more)),
{
    reveal_strlit("\x1b_Ga=t,f=100,t=d,i=");
    reveal_strlit(",q=2,m=");
    reveal_strlit(",q=2,m=1;");
    reveal_strlit(",q=2,m=0;");
    reveal_strlit("\x1b_Gm=");
    reveal_strlit("\x1b_Gm=1;");
    reveal_strlit("\x1b_Gm=0;");
    reveal_strlit("1");
    reveal_strlit("0");
    reveal_strlit(";");
    let h = heading(id, first, more);
    let command = Emitter::chunk_command(id, first, more, chunk);
    assert(command.take(h.len() as int) =~= h);
}

proof fn lemma_flags(id: u32, payload: Seq<char>, first: bool, k: int)
    requires
        0 <= k < Emitter::sent(id, payload, first).len(),
    ensures
        opens_with(
            Emitter::sent(id, payload, first)[k],
            heading(
                id,
                first && k == 0,
                k < Emitter::sent(id, payload, first).len() - 1,
            ),
        ),
    decreases payload.len(),
{
    if 0 < payload.len() <= CHUNK {
        lemma_heading(id, first, false, payload);
    } else if payload.len() > CHUNK {
        let rest = payload.skip(CHUNK as int);
        let later = Emitter::sent(id, rest, false);
        assert(later.len() > 0);
        lemma_heading(id, first, true, payload.take(CHUNK as int));
        if k > 0 {
            assert(Emitter::sent(id, payload, first)[k] == later[k - 1]);
            lemma_flags(id, rest, false, k - 1);
        }
    }
}

/// How many of the first characters of a text are escapes.
pub open spec fn escapes_in(s: Seq<char>) -> nat
    decreases s.len(),
{
    if s.len() == 0 {
        0
    } else {
        escapes_in(s.drop_last()) + (if s.last() == '\x1b' {
            1nat
        } else {
            0
        })
    }
}

/// A command goes out bare; under tmux it goes out inside a passthrough
/// envelope that holds twice its escapes and is otherwise no longer.
pub proof fn law_the_envelope_is_a_passthrough(apc: Seq<char>)
    ensures
        (Emitter { tmux: false }).enveloped(apc) == apc,
        ({
            let wire = (Emitter { tmux: true }).enveloped(apc);
            &&& wire.len() == 7 + apc.len() + escapes_in(apc) + 2
            &&& wire.take(7) == seq!['\x1b', 'P', 't', 'm', 'u', 'x', ';']
            &&& halved(wire.subrange(7, wire.len() - 2)) == apc
            &&& wire.skip(wire.len() - 2) == seq!['\x1b', '\\']
        }),
{
    reveal_strlit("\x1bPtmux;");
    reveal_strlit("\x1b\\");
    lemma_doubled_len(apc);
    law_the_envelope_keeps_the_command(apc);
    let wire = (Emitter { tmux: true }).enveloped(apc);
    assert(wire.take(7) =~= seq!['\x1b', 'P', 't', 'm', 'u', 'x', ';']);
    assert(wire.subrange(7, wire.len() - 2) =~= doubled(apc));
    assert(wire.skip(wire.len() - 2) =~= seq!['\x1b', '\\']);
}

proof fn lemma_doubled_len(s: Seq<char>)
    ensures
        doubled(s).len() == s.len() + escapes_in(s),
    decreases s.len(),
{
    if s.len() > 0 {
        lemma_doubled_len(s.drop_last());
    }
}

/// No two rows, and no two columns, within the first sixty-four are numbered
/// alike, so that a placeholder says which cell it is.
pub proof fn law_the_diacritics_tell_cells_apart(a: int, b: int)
    requires
        0 <= a < b < 64,
    ensures
        diacritics().len() == 64,
        (diacritics()[a] as int) < diacritics()[b] as int,
        diacritics()[0] == '\u{0305}',
        diacritics()[63] == '\u{0658}',
{
    lemma_diacritics_rise(a, b);
}

proof fn lemma_diacritics_rise(a: int, b: int)
    requires
        0 <= a < b < 64,
    ensures
        diacritics().len() == 64,
        (diacritics()[a] as int) < diacritics()[b] as int,
    decreases b - a,
{
    if b > a + 1 {
        lemma_diacritics_rise(a, b - 1);
        lemma_diacritics_rise(b - 1, b);
    }
}

/// An image takes as many columns as its aspect asks for under cells twice as
/// tall as wide, and no more: that many columns are wide enough for the rows,
/// and one fewer is not.
pub proof fn law_the_columns_keep_the_aspect(width: nat, height: nat, rows: nat)
    requires
        height > 0,
    ensures
        1 <= wide(width, height, rows) <= 65535,
        wide(width, height, rows) < 65535 ==> wide(width, height, rows) * height >= 2 * width * rows,
        wide(width, height, rows) > 1 ==> (wide(width, height, rows) - 1) * height < 2 * width
            * rows,
        wide(width, 0, rows) == wide(width, 1, rows),
{
    let n = width * rows * 2;
    let q = (n + height - 1) as nat / height;
    assert(2 * width * rows == n) by (nonlinear_arith)
        requires
            n == width * rows * 2,
    ;
    assert(q * height >= n && (q > 0 ==> (q - 1) * height < n)) by (nonlinear_arith)
        requires
            q == (n + height - 1) / height as int,
            height > 0,
            n >= 0,
    ;
    let w = wide(width, height, rows);
    assert((w - 1) * height <= (q - 1) * height || w > q) by (nonlinear_arith);
    assert(w < 65535 ==> w >= q);
    if w < 65535 {
        assert(w * height >= q * height) by (nonlinear_arith)
            requires
                w >= q,
        ;
    }
}

/// An image no larger than 512 pixels either way is shown as it is; a larger one
/// is its thumbnail, where it can be averaged down, and is not shown where it
/// cannot.
pub proof fn law_only_large_images_are_shrunk(
    width: u32,
    height: u32,
    rgba: Seq<u8>,
    bits: u16,
    channels: u8,
    small: Option<(u32, u32, Seq<u8>)>,
)
    ensures
        width <= 512 && height <= 512 ==> previewed(
            Some(((width, height, rgba), bits, channels)),
            small,
        ) == Some((width, height, rgba)),
        width > 512 || height > 512 ==> ({
            let shown = previewed(Some(((width, height, rgba), bits, channels)), small);
            &&& averageable(width, height, bits, channels) ==> shown == small
            &&& !averageable(width, height, bits, channels) ==> shown is None
        }),
        previewed(None, small) is None,
{
}

} // verus!
