//! The mirror filter: an image flipped left for right, top for bottom, or
//! both.

use vstd::prelude::*;
use crate::boundary::{params_text, text_of, validate, validated, Rejection, STATUS_OK};
use crate::layout::{
    buffer_len,
    channel_of,
    column_of,
    lemma_index,
    lemma_offset,
    lemma_offsets,
    lemma_pixel_number,
    offset,
    row_of,
};
use crate::params::{bool_setting, json_object, parse_object, Document, Setting};

verus! {

/// The image flipped left for right: every pixel takes the place of the one
/// at the same distance from the other end of its row.
pub open spec fn flipped_horizontal(s: Seq<u8>, width: int) -> Seq<u8> {
    Seq::new(
        s.len(),
        |i: int|
            s[offset(width, width - 1 - column_of(width, i), row_of(width, i), channel_of(i))],
    )
}

/// The image flipped top for bottom: every row takes the place of the one
/// at the same distance from the other end of the image.
pub open spec fn flipped_vertical(s: Seq<u8>, width: int, height: int) -> Seq<u8> {
    Seq::new(
        s.len(),
        |i: int|
            s[offset(width, column_of(width, i), height - 1 - row_of(width, i), channel_of(i))],
    )
}

/// The image turned by 180 degrees: the pixels in reverse order, each with
/// its channels in place.
pub open spec fn half_turned(s: Seq<u8>) -> Seq<u8> {
    Seq::new(s.len(), |i: int| s[(s.len() / 4 - 1 - i / 4) * 4 + i % 4])
}

/// Exchanges the bytes at `a` and `b`.
fn swap_bytes(data: &mut [u8], a: usize, b: usize)
    requires
        a < old(data)@.len(),
        b < old(data)@.len(),
    ensures
        final(data)@ == old(data)@.update(a as int, old(data)@[b as int]).update(
            b as int,
            old(data)@[a as int],
        ),
{
    let first: u8 = data[a];
    let second: u8 = data[b];
    data[a] = second;
    data[b] = first;
}

/// Exchanges the pixel that starts at `left` with the one that starts at
/// `right`.
fn swap_pixels(data: &mut [u8], left: usize, right: usize)
    requires
        left + 4 <= right,
        right + 4 <= old(data)@.len(),
    ensures
        final(data)@.len() == old(data)@.len(),
        forall|j: int|
            0 <= j < old(data)@.len() ==> #[trigger] final(data)@[j] == if left <= j < left + 4 {
                old(data)@[j - left + right]
            } else if right <= j < right + 4 {
                old(data)@[j - right + left]
            } else {
                old(data)@[j]
            },
{
    let mut i: usize = 0;
    while i < 4
        invariant
            i <= 4,
            left + 4 <= right,
            right + 4 <= data.len(),
            data.len() == data@.len(),
            data@.len() == old(data)@.len(),
            forall|j: int|
                0 <= j < data@.len() ==> #[trigger] data@[j] == if left <= j < left + i {
                    old(data)@[j - left + right]
                } else if right <= j < right + i {
                    old(data)@[j - right + left]
                } else {
                    old(data)@[j]
                },
        decreases 4 - i,
    {
        swap_bytes(data, left + i, right + i);
        i = i + 1;
    }
}

/// Flips the image left for right, in place. With an odd width the middle
/// column stays where it is.
pub fn flip_horizontal(data: &mut [u8], width: usize, height: usize)
    requires
        old(data)@.len() == width * height * 4,
    ensures
        final(data)@ == flipped_horizontal(old(data)@, width as int),
{
    assert(data.len() == width * height * 4);
    if height == 0 || width == 0 {
        assert(width * height * 4 == 0) by (nonlinear_arith)
            requires
                height == 0 || width == 0,
        ;
        assert(data@ =~= flipped_horizontal(old(data)@, width as int));
        return ;
    }
    let ghost w = width as int;
    let ghost h = height as int;
    let ghost before = data@;
    proof {
        lemma_pixel_number(w, h, 0, 0);
        lemma_offsets(w, h);
    }
    let row_bytes: usize = width * 4;
    let mut y: usize = 0;
    while y < height
        invariant
            w == width,
            h == height,
            w > 0,
            before.len() == w * h * 4,
            w * h * 4 <= usize::MAX,
            data@.len() == before.len(),
            row_bytes == width * 4,
            y <= height,
            forall|xx: int, yy: int, ch: int|
                0 <= xx < w && 0 <= yy < h && 0 <= ch < 4 ==> data@[#[trigger] offset(
                    w,
                    xx,
                    yy,
                    ch,
                )] == if yy < y {
                    before[offset(w, w - 1 - xx, yy, ch)]
                } else {
                    before[offset(w, xx, yy, ch)]
                },
            forall|x: int, y: int, ch: int|
                0 <= x < w && 0 <= y < h && 0 <= ch < 4 ==> {
                    let at = #[trigger] offset(w, x, y, ch);
                    &&& 0 <= at < buffer_len(w, h)
                    &&& column_of(w, at) == x
                    &&& row_of(w, at) == y
                    &&& channel_of(at) == ch
                },
        decreases height - y,
    {
        proof {
            lemma_pixel_number(w, h, 0, y as int);
            assert(y * (width * 4) == (y * width) * 4) by (nonlinear_arith);
        }
        let row_start: usize = y * row_bytes;
        let mut x: usize = 0;
        while x < width / 2
            invariant
                w == width,
                h == height,
                w > 0,
                before.len() == w * h * 4,
                w * h * 4 <= usize::MAX,
                data@.len() == before.len(),
                row_bytes == width * 4,
                row_start == (y * width) * 4,
                y < height,
                x <= width / 2,
                forall|xx: int, yy: int, ch: int|
                    0 <= xx < w && 0 <= yy < h && 0 <= ch < 4 ==> data@[#[trigger] offset(
                        w,
                        xx,
                        yy,
                        ch,
                    )] == if yy < y || (yy == y && (xx < x || xx >= w - x)) {
                        before[offset(w, w - 1 - xx, yy, ch)]
                    } else {
                        before[offset(w, xx, yy, ch)]
                    },
                forall|x: int, y: int, ch: int|
                    0 <= x < w && 0 <= y < h && 0 <= ch < 4 ==> {
                        let at = #[trigger] offset(w, x, y, ch);
                        &&& 0 <= at < buffer_len(w, h)
                        &&& column_of(w, at) == x
                        &&& row_of(w, at) == y
                        &&& channel_of(at) == ch
                    },
            decreases width / 2 - x,
        {
            proof {
                lemma_pixel_number(w, h, x as int, y as int);
                lemma_pixel_number(w, h, w - 1 - x, y as int);
            }
            let left: usize = row_start + x * 4;
            let right: usize = row_start + (width - 1 - x) * 4;
            assert(left == offset(w, x as int, y as int, 0));
            assert(right == offset(w, w - 1 - x, y as int, 0));
            let ghost mid = data@;
            swap_pixels(data, left, right);
            proof {
                assert forall|xx: int, yy: int, ch: int|
                    0 <= xx < w && 0 <= yy < h && 0 <= ch < 4 implies data@[#[trigger] offset(
                    w,
                    xx,
                    yy,
                    ch,
                )] == if yy < y || (yy == y && (xx < x + 1 || xx >= w - (x + 1))) {
                    before[offset(w, w - 1 - xx, yy, ch)]
                } else {
                    before[offset(w, xx, yy, ch)]
                } by {
                    let at = offset(w, xx, yy, ch);
                    assert(mid[at] == if yy < y || (yy == y && (xx < x || xx >= w - x)) {
                        before[offset(w, w - 1 - xx, yy, ch)]
                    } else {
                        before[offset(w, xx, yy, ch)]
                    });
                    if yy == y && xx == x {
                        assert(at == left + ch);
                        assert(mid[offset(w, w - 1 - x, y as int, ch)] == before[offset(
                            w,
                            w - 1 - x,
                            y as int,
                            ch,
                        )]);
                    } else if yy == y && xx == w - 1 - x {
                        assert(at == right + ch);
                        assert(mid[offset(w, x as int, y as int, ch)] == before[offset(
                            w,
                            x as int,
                            y as int,
                            ch,
                        )]);
                    } else {
                        assert(column_of(w, at) == xx && row_of(w, at) == yy);
                        if left <= at < left + 4 {
                            assert(at == offset(w, x as int, y as int, at - left));
                        }
                        if right <= at < right + 4 {
                            assert(at == offset(w, w - 1 - x, y as int, at - right));
                        }
                    }
                }
            }
            x = x + 1;
        }
        y = y + 1;
    }
    proof {
        let target = flipped_horizontal(before, w);
        assert forall|i: int| 0 <= i < before.len() implies data@[i] == target[i] by {
            lemma_index(w, h, i);
            assert(data@[offset(w, column_of(w, i), row_of(w, i), channel_of(i))] == before[offset(
                w,
                w - 1 - column_of(w, i),
                row_of(w, i),
                channel_of(i),
            )]);
        }
        assert(data@ =~= target);
    }
}

/// Flips the image top for bottom, in place. With an odd height the middle
/// row stays where it is.
pub fn flip_vertical(data: &mut [u8], width: usize, height: usize)
    requires
        old(data)@.len() == width * height * 4,
    ensures
        final(data)@ == flipped_vertical(old(data)@, width as int, height as int),
{
    assert(data.len() == width * height * 4);
    if height == 0 || width == 0 {
        assert(width * height * 4 == 0) by (nonlinear_arith)
            requires
                height == 0 || width == 0,
        ;
        assert(data@ =~= flipped_vertical(old(data)@, width as int, height as int));
        return ;
    }
    let ghost w = width as int;
    let ghost h = height as int;
    let ghost before = data@;
    proof {
        lemma_pixel_number(w, h, 0, 0);
        lemma_offsets(w, h);
    }
    let row_bytes: usize = width * 4;
    let mut y: usize = 0;
    while y < height / 2
        invariant
            w == width,
            h == height,
            w > 0,
            before.len() == w * h * 4,
            w * h * 4 <= usize::MAX,
            data@.len() == before.len(),
            row_bytes == width * 4,
            y <= height / 2,
            forall|xx: int, yy: int, ch: int|
                0 <= xx < w && 0 <= yy < h && 0 <= ch < 4 ==> data@[#[trigger] offset(
                    w,
                    xx,
                    yy,
                    ch,
                )] == if yy < y || yy >= h - y {
                    before[offset(w, xx, h - 1 - yy, ch)]
                } else {
                    before[offset(w, xx, yy, ch)]
                },
            forall|x: int, y: int, ch: int|
                0 <= x < w && 0 <= y < h && 0 <= ch < 4 ==> {
                    let at = #[trigger] offset(w, x, y, ch);
                    &&& 0 <= at < buffer_len(w, h)
                    &&& column_of(w, at) == x
                    &&& row_of(w, at) == y
                    &&& channel_of(at) == ch
                },
        decreases height / 2 - y,
    {
        proof {
            lemma_pixel_number(w, h, w - 1, y as int);
            lemma_pixel_number(w, h, w - 1, h - 1 - y);
            assert(y * (width * 4) == (y * width) * 4) by (nonlinear_arith);
            assert((height - 1 - y) * (width * 4) == ((height - 1 - y) * width) * 4)
                by (nonlinear_arith);
        }
        let top: usize = y * row_bytes;
        let bottom: usize = (height - 1 - y) * row_bytes;
        let mut i: usize = 0;
        while i < row_bytes
            invariant
                w == width,
                h == height,
                w > 0,
                before.len() == w * h * 4,
                w * h * 4 <= usize::MAX,
                data@.len() == before.len(),
                row_bytes == width * 4,
                top == (y * width) * 4,
                bottom == ((height - 1 - y) * width) * 4,
                top + row_bytes <= before.len(),
                bottom + row_bytes <= before.len(),
                y < height / 2,
                i <= row_bytes,
                forall|xx: int, yy: int, ch: int|
                    0 <= xx < w && 0 <= yy < h && 0 <= ch < 4 ==> data@[#[trigger] offset(
                        w,
                        xx,
                        yy,
                        ch,
                    )] == if yy < y || yy >= h - y || ((yy == y || yy == h - 1 - y) && xx * 4 + ch
                        < i) {
                        before[offset(w, xx, h - 1 - yy, ch)]
                    } else {
                        before[offset(w, xx, yy, ch)]
                    },
                forall|x: int, y: int, ch: int|
                    0 <= x < w && 0 <= y < h && 0 <= ch < 4 ==> {
                        let at = #[trigger] offset(w, x, y, ch);
                        &&& 0 <= at < buffer_len(w, h)
                        &&& column_of(w, at) == x
                        &&& row_of(w, at) == y
                        &&& channel_of(at) == ch
                    },
            decreases row_bytes - i,
        {
            let ghost mid = data@;
            let ghost ix = i as int / 4;
            let ghost ic = i as int % 4;
            assert(top + i == offset(w, ix, y as int, ic));
            assert(bottom + i == offset(w, ix, h - 1 - y, ic));
            swap_bytes(data, top + i, bottom + i);
            proof {
                assert forall|xx: int, yy: int, ch: int|
                    0 <= xx < w && 0 <= yy < h && 0 <= ch < 4 implies data@[#[trigger] offset(
                    w,
                    xx,
                    yy,
                    ch,
                )] == if yy < y || yy >= h - y || ((yy == y || yy == h - 1 - y) && xx * 4 + ch < i
                    + 1) {
                    before[offset(w, xx, h - 1 - yy, ch)]
                } else {
                    before[offset(w, xx, yy, ch)]
                } by {
                    let at = offset(w, xx, yy, ch);
                    assert(mid[at] == if yy < y || yy >= h - y || ((yy == y || yy == h - 1 - y)
                        && xx * 4 + ch < i) {
                        before[offset(w, xx, h - 1 - yy, ch)]
                    } else {
                        before[offset(w, xx, yy, ch)]
                    });
                    assert(column_of(w, at) == xx && row_of(w, at) == yy && channel_of(at) == ch);
                    if at == top + i {
                        assert(mid[offset(w, ix, h - 1 - y, ic)] == before[offset(
                            w,
                            ix,
                            h - 1 - y,
                            ic,
                        )]);
                    } else if at == bottom + i {
                        assert(mid[offset(w, ix, y as int, ic)] == before[offset(
                            w,
                            ix,
                            y as int,
                            ic,
                        )]);
                    }
                }
            }
            i = i + 1;
        }
        proof {
            assert forall|xx: int, yy: int, ch: int|
                0 <= xx < w && 0 <= yy < h && 0 <= ch < 4 implies data@[#[trigger] offset(
                w,
                xx,
                yy,
                ch,
            )] == if yy < y + 1 || yy >= h - (y + 1) {
                before[offset(w, xx, h - 1 - yy, ch)]
            } else {
                before[offset(w, xx, yy, ch)]
            } by {}
        }
        y = y + 1;
    }
    proof {
        let target = flipped_vertical(before, w, h);
        assert forall|i: int| 0 <= i < before.len() implies data@[i] == target[i] by {
            lemma_index(w, h, i);
            assert(data@[offset(w, column_of(w, i), row_of(w, i), channel_of(i))] == before[offset(
                w,
                column_of(w, i),
                h - 1 - row_of(w, i),
                channel_of(i),
            )]);
        }
        assert(data@ =~= target);
    }
}

/// Flipping an image left for right twice gives the image back.
pub proof fn lemma_flip_horizontal_twice(s: Seq<u8>, width: int, height: int)
    requires
        width >= 0,
        height >= 0,
        s.len() == width * height * 4,
    ensures
        flipped_horizontal(flipped_horizontal(s, width), width) == s,
{
    let once = flipped_horizontal(s, width);
    let twice = flipped_horizontal(once, width);
    assert forall|i: int| 0 <= i < s.len() implies twice[i] == s[i] by {
        lemma_index(width, height, i);
        lemma_offset(width, height, width - 1 - column_of(width, i), row_of(width, i), channel_of(i));
    }
    assert(twice =~= s);
}

/// Flipping an image top for bottom twice gives the image back.
pub proof fn lemma_flip_vertical_twice(s: Seq<u8>, width: int, height: int)
    requires
        width >= 0,
        height >= 0,
        s.len() == width * height * 4,
    ensures
        flipped_vertical(flipped_vertical(s, width, height), width, height) == s,
{
    let once = flipped_vertical(s, width, height);
    let twice = flipped_vertical(once, width, height);
    assert forall|i: int| 0 <= i < s.len() implies twice[i] == s[i] by {
        lemma_index(width, height, i);
        lemma_offset(width, height, column_of(width, i), height - 1 - row_of(width, i), channel_of(i));
    }
    assert(twice =~= s);
}

proof fn lemma_opposite_pixel(width: int, height: int, x: int, y: int)
    by (nonlinear_arith)
    requires
        0 <= x < width,
        0 <= y < height,
    ensures
        (height - 1 - y) * width + (width - 1 - x) == width * height - 1 - (y * width + x),
{
}

/// Flipping an image left for right and then top for bottom turns it by
/// 180 degrees; so does flipping it top for bottom and then left for right.
pub proof fn lemma_both_flips_are_half_turn(s: Seq<u8>, width: int, height: int)
    requires
        width >= 0,
        height >= 0,
        s.len() == width * height * 4,
    ensures
        flipped_vertical(flipped_horizontal(s, width), width, height) == half_turned(s),
        flipped_horizontal(flipped_vertical(s, width, height), width) == half_turned(s),
{
    let turned = half_turned(s);
    let first = flipped_vertical(flipped_horizontal(s, width), width, height);
    let second = flipped_horizontal(flipped_vertical(s, width, height), width);
    assert forall|i: int| 0 <= i < s.len() implies first[i] == turned[i] && second[i]
        == turned[i] by {
        lemma_index(width, height, i);
        let x = column_of(width, i);
        let y = row_of(width, i);
        let ch = channel_of(i);
        lemma_offset(width, height, x, height - 1 - y, ch);
        lemma_offset(width, height, width - 1 - x, y, ch);
        lemma_opposite_pixel(width, height, x, y);
        assert(offset(width, width - 1 - x, height - 1 - y, ch) == (s.len() / 4 - 1 - i / 4) * 4 + i
            % 4);
    }
    assert(first =~= turned);
    assert(second =~= turned);
}

/// Flipping an image of one column left for right changes nothing.
pub proof fn lemma_flip_single_column(s: Seq<u8>, height: int)
    requires
        height >= 0,
        s.len() == height * 4,
    ensures
        flipped_horizontal(s, 1) == s,
{
    let flipped = flipped_horizontal(s, 1);
    assert forall|i: int| 0 <= i < s.len() implies flipped[i] == s[i] by {
        lemma_index(1, height, i);
    }
    assert(flipped =~= s);
}

/// Flipping an image of one row top for bottom changes nothing.
pub proof fn lemma_flip_single_row(s: Seq<u8>, width: int)
    requires
        width >= 0,
        s.len() == width * 4,
    ensures
        flipped_vertical(s, width, 1) == s,
{
    let flipped = flipped_vertical(s, width, 1);
    assert forall|i: int| 0 <= i < s.len() implies flipped[i] == s[i] by {
        lemma_index(width, 1, i);
    }
    assert(flipped =~= s);
}

/// Settings of the mirror filter.
#[derive(Clone, Copy, Debug, PartialEq, Eq, Structural)]
pub struct MirrorParams {
    /// Flip left for right.
    pub horizontal: bool,
    /// Flip top for bottom.
    pub vertical: bool,
}

impl MirrorParams {
    /// The settings that a document gives: each flip as given, and off
    /// where the document leaves it out. No settings come of a member of
    /// the wrong type.
    pub open spec fn merged(horizontal: Setting<bool>, vertical: Setting<bool>) -> Option<
        MirrorParams,
    > {
        if horizontal is Invalid || vertical is Invalid {
            None
        } else {
            Some(
                MirrorParams {
                    horizontal: match horizontal {
                        Setting::Given(flag) => flag,
                        _ => false,
                    },
                    vertical: match vertical {
                        Setting::Given(flag) => flag,
                        _ => false,
                    },
                },
            )
        }
    }

    /// Puts the two settings of a document together with the defaults.
    pub fn merge(horizontal: Setting<bool>, vertical: Setting<bool>) -> (params: Option<
        MirrorParams,
    >)
        ensures
            params == Self::merged(horizontal, vertical),
    {
        let horizontal: bool = match horizontal {
            Setting::Absent => false,
            Setting::Given(flag) => flag,
            Setting::Invalid => {
                return None;
            },
        };
        let vertical: bool = match vertical {
            Setting::Absent => false,
            Setting::Given(flag) => flag,
            Setting::Invalid => {
                return None;
            },
        };
        Some(MirrorParams { horizontal, vertical })
    }

    /// The settings that the members of a document stand for.
    pub open spec fn of_members(members: Seq<(Seq<char>, Seq<char>)>) -> Option<MirrorParams> {
        Self::merged(bool_setting(members, "horizontal"@), bool_setting(members, "vertical"@))
    }

    /// Reads the settings out of a document.
    pub fn from_document(document: &Document) -> (params: Option<MirrorParams>)
        ensures
            params == Self::of_members(document@),
    {
        let horizontal = document.read_bool("horizontal");
        let vertical = document.read_bool("vertical");
        MirrorParams::merge(horizontal, vertical)
    }

    /// The settings that a parameter text stands for, and nothing where the
    /// text is no JSON object or holds a setting of the wrong type.
    pub open spec fn decoded(text: Seq<char>) -> Option<MirrorParams> {
        match json_object(text) {
            None => None,
            Some(members) => Self::of_members(members),
        }
    }

    /// Decodes a parameter text. A text that cannot be used is an error of
    /// the caller: no settings come back, and none are made up.
    pub fn decode(text: &str) -> (params: Option<MirrorParams>)
        ensures
            params == Self::decoded(text@),
    {
        match parse_object(text) {
            None => None,
            Some(document) => MirrorParams::from_document(&document),
        }
    }
}

/// The image with the flips applied that the settings ask for.
pub open spec fn mirrored(s: Seq<u8>, width: int, height: int, params: MirrorParams) -> Seq<u8> {
    let across = if params.horizontal {
        flipped_horizontal(s, width)
    } else {
        s
    };
    if params.vertical {
        flipped_vertical(across, width, height)
    } else {
        across
    }
}

/// The status that [`process_image`] reports: that of the first boundary
/// check that fails, that of malformed parameters where the text cannot be
/// decoded, and zero otherwise.
pub open spec fn status_of(
    width: u32,
    height: u32,
    has_buffer: bool,
    params: Option<Seq<u8>>,
) -> int {
    match validated(width, height, has_buffer, params is Some) {
        Err(rejection) => rejection.status(),
        Ok(_) => match MirrorParams::decoded(text_of(params->0)) {
            None => Rejection::MalformedParams.status(),
            Some(_) => 0,
        },
    }
}

/// The buffer after a call of [`process_image`]: flipped as the decoded
/// settings ask where the call succeeds, untouched otherwise.
pub open spec fn processed(
    width: u32,
    height: u32,
    pixels: Seq<u8>,
    params: Option<Seq<u8>>,
) -> Seq<u8> {
    match validated(width, height, true, params is Some) {
        Err(_) => pixels,
        Ok(_) => match MirrorParams::decoded(text_of(params->0)) {
            None => pixels,
            Some(settings) => mirrored(pixels, width as int, height as int, settings),
        },
    }
}

/// The mirror filter's entry point.
///
/// An absent buffer or parameter text, an empty image, dimensions whose
/// byte count overflows and a parameter text that cannot be decoded each
/// end the call with a status of their own and the buffer as it was.
/// Otherwise the buffer is flipped in place and the status is zero.
pub fn process_image(
    width: u32,
    height: u32,
    rgba_data: Option<&mut [u8]>,
    params: Option<&[u8]>,
) -> (status: i32)
    requires
        rgba_data matches Some(data) ==> (validated(width, height, true, true) matches Ok(len)
            ==> data@.len() == len),
    ensures
        status == status_of(
            width,
            height,
            rgba_data is Some,
            match params {
                Some(bytes) => Some(bytes@),
                None => None,
            },
        ),
        rgba_data matches Some(data) ==> final(data)@ == processed(
            width,
            height,
            data@,
            match params {
                Some(bytes) => Some(bytes@),
                None => None,
            },
        ),
        buffer_len(width as int, height as int) > usize::MAX ==> status != 0 && (
        rgba_data matches Some(data) ==> final(data)@ == data@),
{
    match (rgba_data, params) {
        (Some(data), Some(bytes)) => {
            if let Err(rejection) = validate(width, height, true, true) {
                return rejection.code();
            }
            let settings = match MirrorParams::decode(params_text(bytes)) {
                Some(settings) => settings,
                None => {
                    return Rejection::MalformedParams.code();
                },
            };
            if settings.horizontal {
                flip_horizontal(data, width as usize, height as usize);
            }
            if settings.vertical {
                flip_vertical(data, width as usize, height as usize);
            }
            STATUS_OK
        },
        _ => Rejection::MissingInput.code(),
    }
}

} // verus!
