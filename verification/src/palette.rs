//! Palettes: sixteen RGB colours taken from the colour table of an indexed image.

use vstd::prelude::*;

verus! {

/// Sixteen RGB triples. Slots that the source image does not fill are black.
pub type Palette = [[u8; 3]; 16];

/// Number of colours in a palette.
pub const PALETTE_SIZE: usize = 16;

/// The palette as a sequence of sixteen colours, each a sequence of three bytes.
pub open spec fn palette_view(p: Palette) -> Seq<Seq<u8>> {
    Seq::new(16, |i: int| p[i]@)
}

/// Number of palette slots that a flat RGB colour table fills.
pub open spec fn used_colors(table: Seq<u8>) -> int {
    if table.len() / 3 < 16 {
        table.len() as int / 3
    } else {
        16
    }
}

/// Colour `j` of a flat RGB buffer.
pub open spec fn color_at(rgb: Seq<u8>, j: int) -> Seq<u8> {
    rgb.subrange(3 * j, 3 * j + 3)
}

/// The palette that a colour table yields: its first colours in table order, then black.
pub open spec fn palette_of(table: Seq<u8>) -> Seq<Seq<u8>> {
    Seq::new(
        16,
        |i: int|
            if i < used_colors(table) {
                color_at(table, i)
            } else {
                seq![0u8, 0u8, 0u8]
            },
    )
}

/// The first of the first `n` table colours that equals `color`.
pub open spec fn first_color(table: Seq<u8>, color: Seq<u8>, n: int) -> Option<int>
    decreases n,
{
    if n <= 0 {
        None
    } else {
        match first_color(table, color, n - 1) {
            Some(j) => Some(j),
            None => if color_at(table, n - 1) == color {
                Some(n - 1)
            } else {
                None
            },
        }
    }
}

/// The palette index of `color`: the first palette slot filled from the table that holds it.
pub open spec fn color_index(table: Seq<u8>, color: Seq<u8>) -> Option<int> {
    first_color(table, color, used_colors(table))
}

/// Whether every pixel of a flat RGB buffer has its colour in the palette.
pub open spec fn colors_known(table: Seq<u8>, pixels: Seq<u8>) -> bool {
    forall|i: int| 0 <= i < pixels.len() / 3 ==> color_index(table, #[trigger] color_at(pixels, i)) is Some
}

/// The palette indices of the pixels of a flat RGB buffer.
pub open spec fn indexed_pixels(table: Seq<u8>, pixels: Seq<u8>) -> Seq<u8> {
    Seq::new(
        pixels.len() / 3,
        |i: int| color_index(table, color_at(pixels, i)).unwrap() as u8,
    )
}

/// A found colour index names the first slot with that colour.
pub proof fn lemma_first_color(table: Seq<u8>, color: Seq<u8>, n: int)
    ensures
        match first_color(table, color, n) {
            Some(j) => {
                &&& 0 <= j < n
                &&& color_at(table, j) == color
                &&& forall|k: int| 0 <= k < j ==> color_at(table, k) != color
            },
            None => forall|k: int| 0 <= k < n ==> color_at(table, k) != color,
        },
    decreases n,
{
    if n > 0 {
        lemma_first_color(table, color, n - 1);
    }
}

/// Builds the palette of an image from its flat RGB colour table.
///
/// The first `min(16, table.len() / 3)` slots take the table's colours in order;
/// every slot after them is black.
pub fn extract_palette(table: &[u8]) -> (p: Palette)
    ensures
        palette_view(p) == palette_of(table@),
        forall|i: int| 0 <= i < used_colors(table@) ==> (#[trigger] p[i])@ == color_at(table@, i),
        forall|i: int| used_colors(table@) <= i < 16 ==> (#[trigger] p[i])@ == seq![0u8, 0u8, 0u8],
{
    let mut p: Palette = [[0u8; 3]; 16];
    let count: usize = if table.len() / 3 < PALETTE_SIZE {
        table.len() / 3
    } else {
        PALETTE_SIZE
    };
    proof {
        assert forall|i: int| 0 <= i < 16 implies (#[trigger] p[i])@ == seq![0u8, 0u8, 0u8] by {
            assert(p[i]@ =~= seq![0u8, 0u8, 0u8]);
        }
    }
    let mut i: usize = 0;
    while i < count
        invariant
            i <= count,
            count == used_colors(table@),
            forall|k: int| 0 <= k < i ==> (#[trigger] p[k])@ == color_at(table@, k),
            forall|k: int| i <= k < 16 ==> (#[trigger] p[k])@ == seq![0u8, 0u8, 0u8],
        decreases count - i,
    {
        let color: [u8; 3] = [table[3 * i], table[3 * i + 1], table[3 * i + 2]];
        proof {
            assert(color@ =~= color_at(table@, i as int));
        }
        p[i] = color;
        i += 1;
    }
    proof {
        assert(palette_view(p) =~= palette_of(table@));
    }
    p
}

/// Finds the palette index of one pixel: the colour at `pixel` of a flat RGB buffer.
pub fn find_color(table: &[u8], pixels: &[u8], pixel: usize) -> (r: Option<u8>)
    requires
        3 * pixel + 3 <= pixels@.len(),
    ensures
        match r {
            Some(j) => color_index(table@, color_at(pixels@, pixel as int)) == Some(j as int),
            None => color_index(table@, color_at(pixels@, pixel as int)) is None,
        },
{
    let count: usize = if table.len() / 3 < PALETTE_SIZE {
        table.len() / 3
    } else {
        PALETTE_SIZE
    };
    let ghost color = color_at(pixels@, pixel as int);
    let total: usize = pixels.len();
    let mut j: usize = 0;
    while j < count
        invariant
            j <= count,
            count == used_colors(table@),
            3 * pixel + 3 <= pixels@.len() == total,
            color == color_at(pixels@, pixel as int),
            first_color(table@, color, j as int) is None,
        decreases count - j,
    {
        let same = table[3 * j] == pixels[3 * pixel] && table[3 * j + 1] == pixels[3 * pixel + 1]
            && table[3 * j + 2] == pixels[3 * pixel + 2];
        proof {
            let entry = color_at(table@, j as int);
            if same {
                assert(entry =~= color);
            } else {
                assert(entry[0] == table@[3 * j] && entry[1] == table@[3 * j + 1] && entry[2]
                    == table@[3 * j + 2]);
                assert(color[0] == pixels@[3 * pixel] && color[1] == pixels@[3 * pixel + 1]
                    && color[2] == pixels@[3 * pixel + 2]);
            }
        }
        if same {
            proof {
                lemma_first_color_grows(table@, color, j as int + 1, count as int);
            }
            return Some(j as u8);
        }
        j += 1;
    }
    None
}

/// A colour found among the first `n` table colours is found among the first `m >= n`.
proof fn lemma_first_color_grows(table: Seq<u8>, color: Seq<u8>, n: int, m: int)
    requires
        n <= m,
        first_color(table, color, n) is Some,
    ensures
        first_color(table, color, m) == first_color(table, color, n),
    decreases m - n,
{
    if n < m {
        lemma_first_color_grows(table, color, n, m - 1);
    }
}

/// Replaces every pixel of a flat RGB buffer by its palette index.
///
/// Returns `None` exactly when some pixel has a colour that the palette does not hold.
pub fn index_pixels(table: &[u8], pixels: &[u8]) -> (r: Option<Vec<u8>>)
    ensures
        match r {
            Some(indexed) => colors_known(table@, pixels@) && indexed@ == indexed_pixels(
                table@,
                pixels@,
            ),
            None => !colors_known(table@, pixels@),
        },
        r matches Some(indexed) ==> forall|i: int| 0 <= i < indexed@.len() ==> indexed@[i] < 16,
{
    let count: usize = pixels.len() / 3;
    let mut indexed: Vec<u8> = Vec::with_capacity(count);
    let mut i: usize = 0;
    while i < count
        invariant
            i <= count,
            count == pixels@.len() / 3,
            indexed@.len() == i,
            forall|k: int|
                0 <= k < i ==> color_index(table@, #[trigger] color_at(pixels@, k)) == Some(
                    indexed@[k] as int,
                ),
            forall|k: int| 0 <= k < i ==> indexed@[k] < 16,
        decreases count - i,
    {
        match find_color(table, pixels, i) {
            Some(j) => {
                proof {
                    lemma_first_color(
                        table@,
                        color_at(pixels@, i as int),
                        used_colors(table@),
                    );
                }
                indexed.push(j);
            },
            None => {
                return None;
            },
        }
        i += 1;
    }
    proof {
        assert(indexed@ =~= indexed_pixels(table@, pixels@));
    }
    Some(indexed)
}

/// The character of a decimal digit.
pub open spec fn digit_char(d: int) -> char {
    ((48 + d) as u8) as char
}

/// The decimal numeral of `n`, without leading zeros.
pub open spec fn decimal(n: nat) -> Seq<char>
    decreases n,
{
    if n < 10 {
        seq![digit_char(n as int)]
    } else {
        decimal(n / 10).push(digit_char((n % 10) as int))
    }
}

/// One line of a palette file: the three channels in decimal, separated by single
/// spaces and ended by CR LF.
pub open spec fn color_line(color: Seq<u8>) -> Seq<char> {
    decimal(color[0] as nat) + " "@ + decimal(color[1] as nat) + " "@ + decimal(color[2] as nat)
        + "\r\n"@
}

/// The lines of the first `n` colours of a palette.
pub open spec fn color_lines(colors: Seq<Seq<u8>>, n: int) -> Seq<char>
    decreases n,
{
    if n <= 0 {
        Seq::empty()
    } else {
        color_lines(colors, n - 1) + color_line(colors[n - 1])
    }
}

/// The text of a palette file: the JASC-PAL header, version 0100, the colour count 16,
/// then one line per colour; every line ends in CR LF.
pub open spec fn palette_text(colors: Seq<Seq<u8>>) -> Seq<char> {
    "JASC-PAL\r\n0100\r\n16\r\n"@ + color_lines(colors, 16)
}

/// The one-character string of a decimal digit.
fn digit_str(d: u8) -> (s: &'static str)
    requires
        d < 10,
    ensures
        s@ == seq![digit_char(d as int)],
{
    proof {
        reveal_strlit("0");
        reveal_strlit("1");
        reveal_strlit("2");
        reveal_strlit("3");
        reveal_strlit("4");
        reveal_strlit("5");
        reveal_strlit("6");
        reveal_strlit("7");
        reveal_strlit("8");
        reveal_strlit("9");
    }
    let s = match d {
        0 => "0",
        1 => "1",
        2 => "2",
        3 => "3",
        4 => "4",
        5 => "5",
        6 => "6",
        7 => "7",
        8 => "8",
        _ => "9",
    };
    proof {
        assert(s@ =~= seq![digit_char(d as int)]);
    }
    s
}

/// Appends the decimal numeral of `n`.
fn push_decimal(text: &mut String, n: u8)
    ensures
        final(text)@ == old(text)@ + decimal(n as nat),
{
    proof {
        reveal_with_fuel(decimal, 3);
    }
    if n >= 100 {
        text.append(digit_str(n / 100));
    }
    if n >= 10 {
        text.append(digit_str((n / 10) % 10));
    }
    text.append(digit_str(n % 10));
    proof {
        assert(text@ =~= old(text)@ + decimal(n as nat));
    }
}

/// The text of the palette file for `palette`.
pub fn output_palette(palette: &Palette) -> (text: String)
    ensures
        text@ == palette_text(palette_view(*palette)),
{
    let ghost colors = palette_view(*palette);
    let mut text = String::new();
    text.append("JASC-PAL\r\n0100\r\n16\r\n");
    proof {
        assert(text@ =~= "JASC-PAL\r\n0100\r\n16\r\n"@ + color_lines(colors, 0));
    }
    let mut i: usize = 0;
    while i < 16
        invariant
            i <= 16,
            colors == palette_view(*palette),
            text@ == "JASC-PAL\r\n0100\r\n16\r\n"@ + color_lines(colors, i as int),
        decreases 16 - i,
    {
        let ghost before = text@;
        let color: [u8; 3] = palette[i];
        push_decimal(&mut text, color[0]);
        text.append(" ");
        push_decimal(&mut text, color[1]);
        text.append(" ");
        push_decimal(&mut text, color[2]);
        text.append("\r\n");
        proof {
            assert(colors[i as int] == color@);
            assert(text@ =~= before + color_line(colors[i as int]));
            assert(text@ =~= "JASC-PAL\r\n0100\r\n16\r\n"@ + color_lines(colors, i + 1));
        }
        i += 1;
    }
    text
}

} // verus!
