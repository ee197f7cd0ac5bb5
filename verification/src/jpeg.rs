//! The headers of a JPEG file, as far as they tell whether its components are laid
//! out in a way that the decoder can work with.
//!
//! A file is a sequence of segments. Each starts with `0xff` and a code, and most
//! have their length next. One segment describes the frame: its size, and by how
//! much each component is subsampled. The first scan ends the headers.
use vstd::prelude::*;

verus! {

/// How many blocks of a component stand in a coding unit, across and down.
#[derive(Debug, Clone, Copy, PartialEq, Eq, Structural)]
pub struct Sampling {
    pub h: u8,
    pub v: u8,
}

impl Sampling {
    /// The factors that are allowed.
    pub open spec fn valid(self) -> bool {
        &&& self.h == 1 || self.h == 2 || self.h == 4
        &&& 1 <= self.v <= 4
    }
}

/// What the components stand for.
#[derive(Debug, Clone, Copy, PartialEq, Eq, Structural)]
pub enum Colors {
    Luma,
    YCbCr,
    Cmyk,
    Ycck,
}

/// A frame header.
#[verifier::ext_equal]
pub struct Frame {
    pub progressive: bool,
    pub width: nat,
    pub height: nat,
    pub components: Seq<Sampling>,
}

impl Frame {
    /// There are pixels, one to four components, and factors that are allowed.
    pub open spec fn valid(self) -> bool {
        &&& 0 < self.width < 0x1_0000
        &&& 0 < self.height < 0x1_0000
        &&& 1 <= self.components.len() <= 4
        &&& forall|i: int|
            0 <= i < self.components.len() ==> (#[trigger] self.components[i]).valid()
    }
}

/// What the headers of a file say up to its first scan.
#[verifier::ext_equal]
pub struct Layout {
    pub frame: Frame,
    pub colors: Colors,
    /// How many components the first scan has.
    pub first_scan: nat,
    /// Whether there is a note behind the first scan that the colours are YCbCr.
    pub turns_ycbcr: bool,
}

/// The frame header, as it is read.
#[derive(Debug, Clone)]
pub struct FrameHeader {
    pub progressive: bool,
    pub width: u16,
    pub height: u16,
    pub components: Vec<Sampling>,
}

impl View for FrameHeader {
    type V = Frame;

    open spec fn view(&self) -> Frame {
        Frame {
            progressive: self.progressive,
            width: self.width as nat,
            height: self.height as nat,
            components: self.components@,
        }
    }
}

/// What the headers say, as it is read.
#[derive(Debug, Clone)]
pub struct Headers {
    pub frame: FrameHeader,
    pub colors: Colors,
    pub first_scan: u8,
    pub turns_ycbcr: bool,
}

impl View for Headers {
    type V = Layout;

    open spec fn view(&self) -> Layout {
        Layout {
            frame: self.frame@,
            colors: self.colors,
            first_scan: self.first_scan as nat,
            turns_ycbcr: self.turns_ycbcr,
        }
    }
}

/// The number in the two bytes at place `i`, the most significant first.
pub open spec fn big_endian(bytes: Seq<u8>, i: int) -> nat {
    (bytes[i] * 256 + bytes[i + 1]) as nat
}

/// The place of the first marker code at `i` or behind: a byte other than `0x00` and
/// `0xff` that follows a `0xff`.
pub open spec fn next_code(bytes: Seq<u8>, i: int) -> Option<int>
    decreases bytes.len() - i,
{
    if i + 1 >= bytes.len() {
        None
    } else if bytes[i] == 0xff && bytes[i + 1] != 0 && bytes[i + 1] != 0xff {
        Some(i + 1)
    } else {
        next_code(bytes, i + 1)
    }
}

/// Whether the bytes at `i` are the name `Adobe`.
pub open spec fn is_adobe(bytes: Seq<u8>, i: int) -> bool {
    &&& i + 5 <= bytes.len()
    &&& bytes[i] == 0x41
    &&& bytes[i + 1] == 0x64
    &&& bytes[i + 2] == 0x6f
    &&& bytes[i + 3] == 0x62
    &&& bytes[i + 4] == 0x65
}

/// The sampling factors in a frame header that has them at `at`.
pub open spec fn samplings(bytes: Seq<u8>, at: int, count: nat) -> Seq<Sampling> {
    Seq::new(
        count,
        |k: int| Sampling { h: bytes[at + 3 * k + 1] / 16, v: bytes[at + 3 * k + 1] % 16 },
    )
}

/// The frame header in the segment whose length is at `at`.
pub open spec fn frame_at(bytes: Seq<u8>, at: int, progressive: bool) -> Option<Frame> {
    let count = bytes[at + 7] as nat;
    let frame = Frame {
        progressive,
        width: big_endian(bytes, at + 5),
        height: big_endian(bytes, at + 3),
        components: samplings(bytes, at + 8, count),
    };
    if at + 8 + 3 * count <= bytes.len() && big_endian(bytes, at) == 8 + 3 * count && bytes[at + 2]
        == 8 && frame.valid() {
        Some(frame)
    } else {
        None
    }
}

/// What the headers have said so far.
#[verifier::ext_equal]
pub struct Seen {
    pub frame: Option<Frame>,
    pub colors: Colors,
}

/// What comes of a segment.
#[verifier::ext_equal]
pub enum Step {
    /// The next segment is looked for from here on.
    Next(int, Seen),
    /// The headers end with a scan of so many components, which starts here.
    Scan(nat, int),
    /// The file cannot be decoded.
    Stop,
}

/// The colours of a frame, after the colours that were noted before it.
pub open spec fn frame_colors(count: nat, noted: Colors) -> Colors {
    if count == 1 {
        Colors::Luma
    } else if count == 4 && noted == Colors::YCbCr {
        Colors::Cmyk
    } else {
        noted
    }
}

/// What the note in the segment whose length is at `at` says of the colours.
pub open spec fn noted_colors(bytes: Seq<u8>, at: int) -> Option<Colors> {
    if big_endian(bytes, at) < 14 || at + 13 >= bytes.len() {
        None
    } else if bytes[at + 13] == 0 {
        Some(Colors::Cmyk)
    } else if bytes[at + 13] == 1 {
        Some(Colors::YCbCr)
    } else if bytes[at + 13] == 2 {
        Some(Colors::Ycck)
    } else {
        None
    }
}

/// Reads the segment whose code is at `m`.
pub open spec fn step(bytes: Seq<u8>, m: int, seen: Seen) -> Step {
    let code = bytes[m];
    let at = m + 1;
    let length = big_endian(bytes, at);
    if at + 2 > bytes.len() || length < 2 || code == 0xd9 || code == 0xcc || code == 0xdc {
        Step::Stop
    } else if code == 0xda {
        if seen.frame is Some && at + 2 < bytes.len() && 1 <= bytes[at + 2] <= 4 && length == 6 + 2
            * bytes[at + 2] {
            Step::Scan(bytes[at + 2] as nat, at + length)
        } else {
            Step::Stop
        }
    } else if code == 0xc0 || code == 0xc1 || code == 0xc2 {
        match frame_at(bytes, at, code == 0xc2) {
            Some(frame) => if seen.frame is None {
                Step::Next(
                    at + length,
                    Seen {
                        frame: Some(frame),
                        colors: frame_colors(frame.components.len(), seen.colors),
                    },
                )
            } else {
                Step::Stop
            },
            None => Step::Stop,
        }
    } else if code == 0xee && is_adobe(bytes, at + 2) {
        match noted_colors(bytes, at) {
            Some(colors) => Step::Next(at + length, Seen { colors, ..seen }),
            None => Step::Stop,
        }
    } else if code == 0xe0 && length == 6 {
        // Five bytes are read of a segment that has four.
        Step::Next(at + 7, seen)
    } else {
        Step::Next(at + length, seen)
    }
}

/// Whether a note that the colours are YCbCr starts at `i`.
pub open spec fn notes_ycbcr(bytes: Seq<u8>, i: int) -> bool {
    &&& i + 15 < bytes.len()
    &&& bytes[i] == 0xff
    &&& bytes[i + 1] == 0xee
    &&& is_adobe(bytes, i + 4)
    &&& noted_colors(bytes, i + 2) == Some(Colors::YCbCr)
}

/// The layout that the segments from `i` on tell.
pub open spec fn layout_from(bytes: Seq<u8>, i: int, seen: Seen) -> Option<Layout>
    decreases bytes.len() - i,
{
    match next_code(bytes, i) {
        None => None,
        Some(m) => match step(bytes, m, seen) {
            Step::Next(next, now) => if i < next <= bytes.len() {
                layout_from(bytes, next, now)
            } else {
                None
            },
            Step::Scan(count, start) => Some(
                Layout {
                    frame: seen.frame->0,
                    colors: seen.colors,
                    first_scan: count,
                    turns_ycbcr: exists|k: int| start <= k && #[trigger] notes_ycbcr(bytes, k),
                },
            ),
            Step::Stop => None,
        },
    }
}

/// The layout of a JPEG file, where its headers can be read to the first scan.
pub open spec fn layout_of(bytes: Seq<u8>) -> Option<Layout> {
    if bytes.len() >= 2 && bytes[0] == 0xff && bytes[1] == 0xd8 {
        layout_from(bytes, 2, Seen { frame: None, colors: Colors::YCbCr })
    } else {
        None
    }
}

/// The largest factor across among the first `n` components.
pub open spec fn widest(components: Seq<Sampling>, n: nat) -> nat
    decreases n,
{
    if n == 0 {
        1
    } else {
        let before = widest(components, (n - 1) as nat);
        if components[n - 1].h > before {
            components[n - 1].h as nat
        } else {
            before
        }
    }
}

/// The largest factor down among the first `n` components.
pub open spec fn tallest(components: Seq<Sampling>, n: nat) -> nat
    decreases n,
{
    if n == 0 {
        1
    } else {
        let before = tallest(components, (n - 1) as nat);
        if components[n - 1].v > before {
            components[n - 1].v as nat
        } else {
            before
        }
    }
}

/// The quotient, rounded up.
pub open spec fn div_up(a: nat, b: nat) -> nat {
    ((a + b - 1) / (b as int)) as nat
}

impl Frame {
    /// The largest factor across.
    pub open spec fn h_max(self) -> nat {
        widest(self.components, self.components.len())
    }

    /// The largest factor down.
    pub open spec fn v_max(self) -> nat {
        tallest(self.components, self.components.len())
    }

    /// The length of the rows that the decoder keeps of a component. It goes by the
    /// largest factor up to that component.
    pub open spec fn stride(self, i: int) -> nat {
        8 * self.components[i].h as nat * div_up(
            self.width,
            8 * widest(self.components, (i + 1) as nat),
        )
    }

    /// The length of the rows that a component has.
    pub open spec fn row(self, i: int) -> nat {
        8 * self.components[i].h as nat * div_up(self.width, 8 * self.h_max())
    }

    /// How many rows of coding units there are.
    pub open spec fn unit_rows(self) -> nat {
        div_up(self.height, 8 * self.v_max())
    }

    /// Whether a component has half the samples down, and half or all across.
    pub open spec fn halved_down(self, i: int) -> bool {
        &&& self.v_max() / self.components[i].v as nat == 2
        &&& self.h_max() / self.components[i].h as nat <= 2
    }

    /// Whether a component has half the samples across and half down.
    pub open spec fn halved(self, i: int) -> bool {
        &&& self.v_max() / self.components[i].v as nat == 2
        &&& self.h_max() / self.components[i].h as nat == 2
    }

    /// Whether the last row of coding units of a component, at the stride that the
    /// decoder keeps, reaches over what is set aside for the component.
    pub open spec fn overruns(self, i: int) -> bool {
        let v = self.components[i].v as nat;
        let rows = self.unit_rows();
        v * (self.row(i) * rows) < self.stride(i) + v * (self.stride(i) * (rows - 1))
    }

    /// Whether a component that is scanned apart from others lacks room: for itself,
    /// or for the work on it, which goes by the first component.
    pub open spec fn cramped(self, i: int) -> bool {
        self.overruns(i) || (self.halved(i) && 2 * self.stride(i) > self.stride(0))
    }
}

impl Layout {
    /// Whether a progressive file is laid out in a way that makes the decoder panic:
    /// - one or two components that are said to be YCCK, since three are looked for;
    /// - a component that is halved both ways, where the first component does not
    ///   have the largest factor across, since the room for the work goes by the
    ///   first;
    /// - four components that are said to be YCbCr, one of them halved down, since
    ///   the fourth is not decoded.
    pub open spec fn breaks_progressive(self) -> bool {
        let f = self.frame;
        let n = f.components.len();
        ||| n < 3 && self.colors == Colors::Ycck
        ||| f.components[0].h < f.h_max() && exists|i: int| 0 <= i < n && #[trigger] f.halved(i)
        ||| n == 4 && (self.colors == Colors::YCbCr || self.turns_ycbcr) && exists|i: int|
            0 <= i < n && #[trigger] f.halved_down(i)
    }

    /// Whether a sequential file is laid out in a way that makes the decoder panic: its
    /// first scan lacks a component, and there is no room for one of them.
    pub open spec fn breaks_sequential(self) -> bool {
        let f = self.frame;
        let n = f.components.len();
        self.first_scan != n && exists|i: int| 0 <= i < n && #[trigger] f.cramped(i)
    }

    /// Whether the decoder comes to an end of its own, whatever the scans hold.
    pub open spec fn decodable(self) -> bool {
        if self.frame.progressive {
            !self.breaks_progressive()
        } else {
            !self.breaks_sequential()
        }
    }
}

/// Whether a file can be handed to the decoder.
pub open spec fn can_decode(bytes: Seq<u8>) -> bool {
    layout_of(bytes) matches Some(layout) ==> layout.decodable()
}

fn code_after(bytes: &[u8], start: usize) -> (r: Option<usize>)
    ensures
        match r {
            Some(m) => next_code(bytes@, start as int) == Some(m as int) && start < m
                < bytes@.len(),
            None => next_code(bytes@, start as int) is None,
        },
{
    let mut i: usize = start;
    while i < bytes.len() && bytes.len() - i > 1
        invariant
            start <= i,
            next_code(bytes@, start as int) == next_code(bytes@, i as int),
        decreases bytes@.len() - i,
    {
        if bytes[i] == 0xff && bytes[i + 1] != 0 && bytes[i + 1] != 0xff {
            return Some(i + 1);
        }
        i = i + 1;
    }
    None
}

fn adobe(bytes: &[u8], i: usize) -> (r: bool)
    requires
        i <= bytes@.len(),
    ensures
        r == is_adobe(bytes@, i as int),
{
    bytes.len() - i >= 5 && bytes[i] == 0x41 && bytes[i + 1] == 0x64 && bytes[i + 2] == 0x6f
        && bytes[i + 3] == 0x62 && bytes[i + 4] == 0x65
}

fn number(bytes: &[u8], i: usize) -> (r: u16)
    requires
        i + 1 < bytes@.len(),
    ensures
        r == big_endian(bytes@, i as int),
{
    bytes[i] as u16 * 256 + bytes[i + 1] as u16
}

fn read_colors(bytes: &[u8], at: usize) -> (r: Option<Colors>)
    requires
        at + 1 < bytes@.len(),
    ensures
        r == noted_colors(bytes@, at as int),
{
    if number(bytes, at) < 14 || bytes.len() - at <= 13 {
        return None;
    }
    match bytes[at + 13] {
        0 => Some(Colors::Cmyk),
        1 => Some(Colors::YCbCr),
        2 => Some(Colors::Ycck),
        _ => None,
    }
}

fn read_frame(bytes: &[u8], at: usize, progressive: bool) -> (r: Option<FrameHeader>)
    requires
        at + 1 < bytes@.len(),
    ensures
        match r {
            Some(frame) => frame_at(bytes@, at as int, progressive) == Some(frame@),
            None => frame_at(bytes@, at as int, progressive) is None,
        },
{
    let room: usize = bytes.len() - at;
    if room < 8 {
        return None;
    }
    let count: u8 = bytes[at + 7];
    if room - 8 < 3 * count as usize || number(bytes, at) != 8 + 3 * count as u16 || bytes[at + 2]
        != 8 {
        return None;
    }
    let width: u16 = number(bytes, at + 5);
    let height: u16 = number(bytes, at + 3);
    let ghost all = samplings(bytes@, at + 8, count as nat);
    let ghost whole = Frame {
        progressive,
        width: width as nat,
        height: height as nat,
        components: all,
    };
    if width == 0 || height == 0 || count == 0 || count > 4 {
        return None;
    }
    let mut components: Vec<Sampling> = Vec::new();
    let mut k: u8 = 0;
    while k < count
        invariant
            k <= count <= 4,
            at + 8 + 3 * count <= bytes@.len() <= usize::MAX,
            all == samplings(bytes@, at + 8, count as nat),
            whole.components == all,
            frame_at(bytes@, at as int, progressive) is Some ==> whole.valid(),
            components@ == all.take(k as int),
            forall|i: int| 0 <= i < k ==> (#[trigger] all[i]).valid(),
        decreases count - k,
    {
        let factors: u8 = bytes[at + 8 + 3 * k as usize + 1];
        let sampling = Sampling { h: factors / 16, v: factors % 16 };
        assert(all[k as int] == sampling);
        if (sampling.h != 1 && sampling.h != 2 && sampling.h != 4) || sampling.v == 0 || sampling.v
            > 4 {
            assert(!whole.components[k as int].valid());
            return None;
        }
        components.push(sampling);
        assert(components@ =~= all.take(k + 1));
        k = k + 1;
    }
    assert(components@ =~= all);
    Some(FrameHeader { progressive, width, height, components })
}

/// Whether a note that the colours are YCbCr starts at `start` or behind.
fn turns_ycbcr(bytes: &[u8], start: usize) -> (r: bool)
    ensures
        r == exists|k: int| start <= k && #[trigger] notes_ycbcr(bytes@, k),
{
    let mut i: usize = start;
    while i < bytes.len() && bytes.len() - i > 15
        invariant
            start <= i,
            forall|k: int| start <= k < i ==> !#[trigger] notes_ycbcr(bytes@, k),
        decreases bytes@.len() - i,
    {
        if bytes[i] == 0xff && bytes[i + 1] == 0xee && adobe(bytes, i + 4) && matches!(
            read_colors(bytes, i + 2),
            Some(Colors::YCbCr)
        ) {
            assert(notes_ycbcr(bytes@, i as int));
            return true;
        }
        i = i + 1;
    }
    false
}

/// The view of an optional frame header.
pub open spec fn frame_view(frame: Option<FrameHeader>) -> Option<Frame> {
    match frame {
        Some(frame) => Some(frame@),
        None => None,
    }
}

/// Reads the headers of a JPEG file up to its first scan.
pub fn headers(bytes: &[u8]) -> (r: Option<Headers>)
    ensures
        match r {
            Some(headers) => layout_of(bytes@) == Some(headers@) && headers@.frame.valid(),
            None => layout_of(bytes@) is None,
        },
{
    if bytes.len() < 2 || bytes[0] != 0xff || bytes[1] != 0xd8 {
        return None;
    }
    let mut i: usize = 2;
    let mut frame: Option<FrameHeader> = None;
    let mut colors = Colors::YCbCr;
    loop
        invariant
            2 <= i <= bytes@.len(),
            layout_of(bytes@) == layout_from(
                bytes@,
                i as int,
                Seen { frame: frame_view(frame), colors },
            ),
            frame matches Some(f) ==> f@.valid(),
        decreases bytes@.len() - i,
    {
        let ghost seen = Seen { frame: frame_view(frame), colors };
        let m: usize = match code_after(bytes, i) {
            Some(m) => m,
            None => {
                return None;
            },
        };
        let code: u8 = bytes[m];
        let at: usize = m + 1;
        if bytes.len() - at < 2 || code == 0xd9 || code == 0xcc || code == 0xdc {
            return None;
        }
        let mut length: usize = number(bytes, at) as usize;
        if length < 2 {
            return None;
        }
        if code == 0xda {
            if bytes.len() - at == 2 || bytes[at + 2] == 0 || bytes[at + 2] > 4 || length != 6 + 2
                * bytes[at + 2] as usize {
                return None;
            }
            return match frame {
                Some(frame) => Some(
                    Headers {
                        frame,
                        colors,
                        first_scan: bytes[at + 2],
                        turns_ycbcr: length <= bytes.len() - at && turns_ycbcr(bytes, at + length),
                    },
                ),
                None => None,
            };
        }
        if code == 0xc0 || code == 0xc1 || code == 0xc2 {
            if frame.is_some() {
                return None;
            }
            match read_frame(bytes, at, code == 0xc2) {
                Some(f) => {
                    let count: usize = f.components.len();
                    if count == 1 {
                        colors = Colors::Luma;
                    } else if count == 4 && matches!(colors, Colors::YCbCr) {
                        colors = Colors::Cmyk;
                    }
                    frame = Some(f);
                },
                None => {
                    return None;
                },
            }
        } else if code == 0xee && adobe(bytes, at + 2) {
            match read_colors(bytes, at) {
                Some(noted) => {
                    colors = noted;
                },
                None => {
                    return None;
                },
            }
        } else if code == 0xe0 && length == 6 {
            length = 7;
        }
        if length > bytes.len() - at {
            return None;
        }
        assert(step(bytes@, m as int, seen) == Step::Next(
            at + length,
            Seen { frame: frame_view(frame), colors },
        ));
        i = at + length;
    }
}

proof fn lemma_factors(f: Frame, n: nat)
    requires
        f.valid(),
        n <= f.components.len(),
    ensures
        1 <= widest(f.components, n) <= 4,
        1 <= tallest(f.components, n) <= 4,
        forall|i: int| 0 <= i < n ==> (#[trigger] f.components[i]).h <= widest(f.components, n),
        forall|i: int| 0 <= i < n ==> (#[trigger] f.components[i]).v <= tallest(f.components, n),
    decreases n,
{
    if n > 0 {
        assert(f.components[n - 1].valid());
        lemma_factors(f, (n - 1) as nat);
    }
}

/// The quotient of a size and eight times a factor, rounded up.
fn units(size: u16, factor: u64) -> (r: u64)
    requires
        0 < size,
        1 <= factor <= 4,
    ensures
        r == div_up(size as nat, (8 * factor) as nat),
        1 <= r <= 8192,
{
    let b: u64 = 8 * factor;
    let a: u64 = size as u64 + b - 1;
    assert(1 <= a / b <= 8192) by (nonlinear_arith)
        requires
            8 <= b <= 32,
            b <= a <= 65535 + b - 1,
    ;
    a / b
}

impl FrameHeader {
    /// The largest factors of the first `n` components.
    fn largest(&self, n: usize) -> (r: (u64, u64))
        requires
            self@.valid(),
            n <= self.components@.len(),
        ensures
            r.0 == widest(self.components@, n as nat),
            r.1 == tallest(self.components@, n as nat),
            1 <= r.0 <= 4,
            1 <= r.1 <= 4,
    {
        let mut h: u64 = 1;
        let mut v: u64 = 1;
        let mut i: usize = 0;
        while i < n
            invariant
                i <= n <= self.components@.len(),
                h == widest(self.components@, i as nat),
                v == tallest(self.components@, i as nat),
            decreases n - i,
        {
            if self.components[i].h as u64 > h {
                h = self.components[i].h as u64;
            }
            if self.components[i].v as u64 > v {
                v = self.components[i].v as u64;
            }
            i = i + 1;
        }
        proof {
            lemma_factors(self@, n as nat);
        }
        (h, v)
    }

    /// The length of the rows that the decoder keeps of a component.
    fn stride(&self, i: usize) -> (r: u64)
        requires
            self@.valid(),
            i < self.components@.len(),
        ensures
            r == self@.stride(i as int),
            8 <= r <= 0x4_0000,
    {
        let h: u64 = self.components[i].h as u64;
        let across: u64 = units(self.width, self.largest(i + 1).0);
        assert(self@.components[i as int].valid());
        assert(8 <= 8 * h * across <= 0x4_0000) by (nonlinear_arith)
            requires
                1 <= h <= 4,
                1 <= across <= 8192,
        ;
        8 * h * across
    }

    /// Whether a component is halved down, and whether across too.
    fn halvings(&self, i: usize) -> (r: (bool, bool))
        requires
            self@.valid(),
            i < self.components@.len(),
        ensures
            r.0 == self@.halved_down(i as int),
            r.1 == self@.halved(i as int),
    {
        let (h_max, v_max) = self.largest(self.components.len());
        assert(self@.components[i as int].valid());
        let h: u64 = self.components[i].h as u64;
        let v: u64 = self.components[i].v as u64;
        (v_max / v == 2 && h_max / h <= 2, v_max / v == 2 && h_max / h == 2)
    }

    /// Whether a component reaches over what is set aside for it.
    fn overruns(&self, i: usize) -> (r: bool)
        requires
            self@.valid(),
            i < self.components@.len(),
        ensures
            r == self@.overruns(i as int),
    {
        let (h_max, v_max) = self.largest(self.components.len());
        assert(self@.components[i as int].valid());
        let h: u64 = self.components[i].h as u64;
        let v: u64 = self.components[i].v as u64;
        let across: u64 = units(self.width, h_max);
        let rows: u64 = units(self.height, v_max);
        let stride: u64 = self.stride(i);
        assert(8 * h * across <= 0x4_0000) by (nonlinear_arith)
            requires
                1 <= h <= 4,
                1 <= across <= 8192,
        ;
        let row: u64 = 8 * h * across;
        assert(0 <= row * rows <= 0x8000_0000 && 0 <= v * (row * rows) <= 0x2_0000_0000)
            by (nonlinear_arith)
            requires
                0 <= row <= 0x4_0000,
                1 <= rows <= 8192,
                1 <= v <= 4,
        ;
        assert(0 <= stride * (rows - 1) <= 0x8000_0000 && 0 <= v * (stride * (rows - 1))
            <= 0x2_0000_0000) by (nonlinear_arith)
            requires
                0 <= stride <= 0x4_0000,
                1 <= rows <= 8192,
                1 <= v <= 4,
        ;
        v * (row * rows) < stride + v * (stride * (rows - 1))
    }
}

impl Headers {
    /// Whether the decoder comes to an end of its own, whatever the scans hold.
    pub fn decodable(&self) -> (r: bool)
        requires
            self@.frame.valid(),
        ensures
            r == self@.decodable(),
    {
        let f = &self.frame;
        let n: usize = f.components.len();
        let lacking = self.first_scan as usize != n;
        let narrow = (f.components[0].h as u64) < f.largest(n).0;
        let fourth = n == 4 && (self.turns_ycbcr || matches!(self.colors, Colors::YCbCr));
        if f.progressive && n < 3 && matches!(self.colors, Colors::Ycck) {
            return false;
        }
        let mut i: usize = 0;
        while i < n
            invariant
                i <= n,
                f == self.frame,
                f@.valid(),
                n == f.components@.len(),
                lacking == (self@.first_scan != n),
                narrow == (f@.components[0].h < f@.h_max()),
                fourth == (n == 4 && (self@.colors == Colors::YCbCr || self@.turns_ycbcr)),
                f.progressive && n < 3 ==> self@.colors != Colors::Ycck,
                f.progressive && narrow ==> forall|k: int| 0 <= k < i ==> !#[trigger] f@.halved(k),
                f.progressive && fourth ==> forall|k: int|
                    0 <= k < i ==> !#[trigger] f@.halved_down(k),
                !f.progressive && lacking ==> forall|k: int|
                    0 <= k < i ==> !#[trigger] f@.cramped(k),
            decreases n - i,
        {
            let (down, both) = f.halvings(i);
            if f.progressive {
                if (narrow && both) || (fourth && down) {
                    return false;
                }
            } else if lacking {
                if f.overruns(i) || (both && 2 * f.stride(i) > f.stride(0)) {
                    assert(f@.cramped(i as int));
                    return false;
                }
            }
            i = i + 1;
        }
        true
    }
}

/// Whether a file can be handed to the decoder.
pub fn is_decodable(bytes: &[u8]) -> (r: bool)
    ensures
        r == can_decode(bytes@),
{
    match headers(bytes) {
        Some(headers) => headers.decodable(),
        None => true,
    }
}

proof fn lemma_widest_first(f: Frame, n: nat)
    requires
        f.valid(),
        1 <= n <= f.components.len(),
        f.components[0].h == f.h_max(),
    ensures
        widest(f.components, n) == f.h_max(),
    decreases n,
{
    lemma_factors(f, f.components.len());
    assert(f.components[0].valid());
    if n > 1 {
        lemma_widest_first(f, (n - 1) as nat);
        assert(f.components[n - 1].h <= f.h_max());
    } else {
        assert(widest(f.components, 0) == 1);
    }
}

/// The layout of a usual photo can be decoded: it has three components, of which
/// the first has the most samples across, or it has one that stands for the luma.
pub proof fn law_usual_layouts_can_be_decoded(layout: Layout)
    requires
        layout.frame.valid(),
        layout.frame.components[0].h == layout.frame.h_max(),
        layout.frame.components.len() == 3 || (layout.frame.components.len() == 1 && layout.colors
            == Colors::Luma),
    ensures
        layout.decodable(),
{
    let f = layout.frame;
    let n = f.components.len();
    lemma_factors(f, n);
    let rows = f.unit_rows();
    let tall = (8 * f.v_max()) as int;
    assert(rows >= 1) by (nonlinear_arith)
        requires
            rows == ((f.height + tall - 1) / tall) as nat,
            f.height >= 1,
            tall >= 8,
    ;
    assert forall|i: int| 0 <= i < n implies !#[trigger] f.cramped(i) by {
        lemma_widest_first(f, (i + 1) as nat);
        lemma_widest_first(f, 1);
        assert(f.components[i].valid() && f.components[0].valid());
        let (s, v, h) = (f.stride(i), f.components[i].v as nat, f.components[i].h as nat);
        assert(s == f.row(i));
        assert(v * (s * rows) >= s + v * (s * (rows - 1))) by (nonlinear_arith)
            requires
                v >= 1,
                rows >= 1,
                s >= 0,
        ;
        if f.halved(i) {
            let across = div_up(f.width, 8 * f.h_max());
            assert(f.h_max() == 2 * h) by {
                assert(h == 1 || h == 2 || h == 4);
                if h == 1 {
                    assert(f.h_max() / 1 == 2);
                } else if h == 2 {
                    assert(f.h_max() / 2 == 2);
                } else {
                    assert(f.h_max() / 4 == 2);
                }
            }
            assert(2 * (8 * h * across) == 8 * (2 * h) * across) by (nonlinear_arith);
        }
    }
}

/// A file that does not start as a JPEG file does is not held up by what this module looks at.
pub proof fn law_other_files_can_be_decoded(bytes: Seq<u8>)
    requires
        bytes.len() < 2 || bytes[0] != 0xff || bytes[1] != 0xd8,
    ensures
        can_decode(bytes),
{
}

/// A segment that says nothing of the frame, the colours or a scan is passed over, whatever is
/// in it: the notes of applications other than the first and the Adobe one, comments, and the
/// tables.
pub proof fn law_other_segments_are_passed_over(bytes: Seq<u8>, i: int, seen: Seen)
    requires
        0 <= i,
        i + 4 <= bytes.len(),
        bytes[i] == 0xff,
        0xe1 <= bytes[i + 1] <= 0xed || bytes[i + 1] == 0xfe || bytes[i + 1] == 0xdb || bytes[i + 1]
            == 0xc4 || bytes[i + 1] == 0xdd,
        bytes[i + 2] * 256 + bytes[i + 3] >= 2,
        i + 2 + bytes[i + 2] * 256 + bytes[i + 3] <= bytes.len(),
    ensures
        layout_from(bytes, i, seen) == layout_from(
            bytes,
            i + 2 + bytes[i + 2] * 256 + bytes[i + 3],
            seen,
        ),
{
    assert(next_code(bytes, i) == Some(i + 1));
}

/// Whether a frame header of three components stands at `i`, in which no component has more
/// samples across than the first.
pub open spec fn is_plain_frame(bytes: Seq<u8>, i: int) -> bool {
    let (a, b, c) = (bytes[i + 11], bytes[i + 14], bytes[i + 17]);
    &&& 0 <= i && i + 19 <= bytes.len()
    &&& bytes[i] == 0xff && (bytes[i + 1] == 0xc0 || bytes[i + 1] == 0xc1 || bytes[i + 1] == 0xc2)
    &&& bytes[i + 2] == 0 && bytes[i + 3] == 17 && bytes[i + 4] == 8
    &&& bytes[i + 5] * 256 + bytes[i + 6] > 0 && bytes[i + 7] * 256 + bytes[i + 8] > 0
    &&& bytes[i + 9] == 3
    &&& a / 16 == 1 || a / 16 == 2 || a / 16 == 4
    &&& b / 16 == 1 || b / 16 == 2 || b / 16 == 4
    &&& c / 16 == 1 || c / 16 == 2 || c / 16 == 4
    &&& b / 16 <= a / 16 && c / 16 <= a / 16
    &&& 1 <= a % 16 <= 4 && 1 <= b % 16 <= 4 && 1 <= c % 16 <= 4
}

/// A photo of the usual layout can be decoded, whatever its size and its length: a frame of
/// three components at `i`, and any scan behind it.
pub proof fn law_plain_photos_can_be_decoded(bytes: Seq<u8>, i: int, colors: Colors)
    requires
        is_plain_frame(bytes, i),
        i + 24 <= bytes.len(),
        bytes[i + 19] == 0xff && bytes[i + 20] == 0xda,
    ensures
        layout_from(bytes, i, Seen { frame: None, colors }) matches Some(layout)
            ==> layout.decodable(),
        i == 2 && bytes[0] == 0xff && bytes[1] == 0xd8 ==> can_decode(bytes),
    decreases
            if colors == Colors::YCbCr {
                0int
            } else {
                1int
            },
{
    let seen = Seen { frame: None, colors };
    let at = i + 2;
    let frame = Frame {
        progressive: bytes[i + 1] == 0xc2,
        width: big_endian(bytes, at + 5),
        height: big_endian(bytes, at + 3),
        components: samplings(bytes, at + 8, 3),
    };
    assert(next_code(bytes, i) == Some(i + 1));
    assert(frame.components.len() == 3);
    assert(frame.valid()) by {
        assert forall|k: int| 0 <= k < 3 implies (#[trigger] frame.components[k]).valid() by {
            assert(k == 0 || k == 1 || k == 2);
        }
    }
    assert(frame_at(bytes, at, bytes[i + 1] == 0xc2) == Some(frame));
    let now = Seen { frame: Some(frame), colors: frame_colors(3, colors) };
    assert(step(bytes, i + 1, seen) == Step::Next(i + 19, now));
    assert(next_code(bytes, i + 19) == Some(i + 20));
    assert(layout_from(bytes, i, seen) == layout_from(bytes, i + 19, now));
    reveal_with_fuel(widest, 4);
    assert(frame.components[0].h == frame.h_max());
    if let Some(layout) = layout_from(bytes, i + 19, now) {
        assert(layout.frame == frame);
        law_usual_layouts_can_be_decoded(layout);
    }
    if i == 2 && bytes[0] == 0xff && bytes[1] == 0xd8 {
        if colors != Colors::YCbCr {
            law_plain_photos_can_be_decoded(bytes, i, Colors::YCbCr);
        }
    }
}

/// A sequential file whose first scan lacks a component is refused where the first component
/// has half the samples across that the second has, since there is no room for its rows.
pub proof fn law_scans_apart_need_room(layout: Layout)
    requires
        layout.frame.valid(),
        !layout.frame.progressive,
        layout.frame.components.len() >= 2,
        layout.first_scan != layout.frame.components.len(),
        layout.frame.components[0] == (Sampling { h: 1, v: 1 }),
        layout.frame.components[1].h >= 2,
        layout.frame.width > 8,
    ensures
        !layout.decodable(),
{
    let f = layout.frame;
    let n = f.components.len();
    lemma_factors(f, n);
    reveal_with_fuel(widest, 2);
    assert(widest(f.components, 1) == 1);
    assert(f.components[1].h <= f.h_max());
    let (w, h) = (f.width as int, 8 * f.h_max() as int);
    let (narrow, wide) = (div_up(f.width, 8) as int, div_up(f.width, 8 * f.h_max()) as int);
    assert(wide < narrow) by (nonlinear_arith)
        requires
            narrow == (w + 7) / 8,
            wide == (w + h - 1) / h,
            h >= 16,
            w > 8,
    ;
    let rows = f.unit_rows() as int;
    let tall = 8 * f.v_max() as int;
    assert(rows >= 1) by (nonlinear_arith)
        requires
            rows == (f.height + tall - 1) / tall,
            f.height >= 1,
            tall >= 8,
    ;
    let (s, r) = (f.stride(0) as int, f.row(0) as int);
    assert(s == 8 * narrow && r == 8 * wide);
    assert(1 * (r * rows) < s + 1 * (s * (rows - 1))) by (nonlinear_arith)
        requires
            0 <= r < s,
            rows >= 1,
    ;
    assert(f.cramped(0));
}

/// A progressive file of one or two components that are said to be YCCK is refused, since the
/// decoder looks for three.
pub proof fn law_short_ycck_is_refused(layout: Layout)
    requires
        layout.frame.progressive,
        1 <= layout.frame.components.len() <= 2,
        layout.colors == Colors::Ycck,
    ensures
        !layout.decodable(),
{
}

/// The headers of a JPEG file are read from behind the two bytes that it starts with, and the file
/// can be handed to the decoder exactly where what they tell can be decoded.
pub proof fn law_headers_decide(bytes: Seq<u8>)
    requires
        bytes.len() >= 2 && bytes[0] == 0xff && bytes[1] == 0xd8,
    ensures
        ({
            let told = layout_from(bytes, 2, Seen { frame: None, colors: Colors::YCbCr });
            &&& layout_of(bytes) == told
            &&& can_decode(bytes) <==> told is None || told->0.decodable()
        }),
{
}

/// A frame header holds the height and the width, the most significant byte first, and the number
/// of components; each of them has its factors in the two halves of a byte. It is read exactly where
/// it is complete, has samples of eight bits, and all of this is in range.
pub proof fn law_frame_header_is_read(bytes: Seq<u8>, at: int, progressive: bool, k: int)
    requires
        0 <= at && at + 8 <= bytes.len(),
    ensures
        ({
            let n = bytes[at + 7] as int;
            let read = frame_at(bytes, at, progressive);
            &&& read is Some ==> {
                let f = read->0;
                &&& f.progressive == progressive
                &&& f.height == bytes[at + 3] * 256 + bytes[at + 4] && f.height > 0
                &&& f.width == bytes[at + 5] * 256 + bytes[at + 6] && f.width > 0
                &&& f.components.len() == n && 1 <= n <= 4
                &&& bytes[at] * 256 + bytes[at + 1] == 8 + 3 * n
                &&& bytes[at + 2] == 8
                &&& at + 8 + 3 * n <= bytes.len()
                &&& 0 <= k < n ==> {
                    let s = f.components[k];
                    let b = bytes[at + 9 + 3 * k];
                    &&& 16 * s.h + s.v == b && s.v < 16
                    &&& (s.h == 1 || s.h == 2 || s.h == 4) && 1 <= s.v <= 4
                }
            }
        }),
{
    if let Some(f) = frame_at(bytes, at, progressive) {
        if 0 <= k < f.components.len() {
            assert(f.components[k].valid());
        }
    }
}

} // verus!
