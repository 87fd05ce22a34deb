//! A QR code as text for a terminal, and the address it carries.

use crate::text::{decimal, decimal_string};
use qrcode_generator::{QRCodeError, QrCodeEcc};
use vstd::prelude::*;
use vstd::string::*;

verus! {

/// `qrcode_generator::QRCodeError` is carried through unopened.
#[verifier::external_type_specification]
#[verifier::external_body]
pub struct ExQRCodeError(QRCodeError);

/// Why no QR code could be made of a message.
#[derive(Debug)]
pub struct QrError {
    /// What the encoder reported.
    pub cause: QRCodeError,
}

/// The modules of the QR code that carries `message` with at least the
/// lowest level of error correction, row by row, `true` for a dark module;
/// `None` where the message fits no QR code.
pub uninterp spec fn qr_modules(message: Seq<char>) -> Option<Seq<Seq<bool>>>;

/// The rows of a matrix as sequences.
pub open spec fn grid(matrix: Seq<Vec<bool>>) -> Seq<Seq<bool>> {
    Seq::new(matrix.len(), |i: int| matrix[i]@)
}

/// Encodes with `qrcode_generator::to_matrix` at `QrCodeEcc::Low`. The
/// encoder is taken on trust to compute its matrix from the message alone:
/// it picks the smallest version that holds the message, the highest level
/// of error correction that this version allows and the mask with the least
/// penalty, and fails only where the message fits no version.
#[verifier::external_body]
fn encode(message: &str) -> (encoded: Result<Vec<Vec<bool>>, QRCodeError>)
    ensures
        match encoded {
            Ok(matrix) => qr_modules(message@) == Some(grid(matrix@)),
            Err(_) => qr_modules(message@) is None,
        },
{
    qrcode_generator::to_matrix(message, QrCodeEcc::Low)
}

/// How one module is drawn: two full blocks where it is dark, two spaces
/// where it is light.
pub open spec fn cell_text(dark: bool) -> Seq<char> {
    if dark {
        seq!['\u{2588}', '\u{2588}']
    } else {
        seq![' ', ' ']
    }
}

/// The modules of a row, drawn side by side.
pub open spec fn cells_text(row: Seq<bool>) -> Seq<char>
    decreases row.len(),
{
    if row.len() == 0 {
        Seq::empty()
    } else {
        cells_text(row.drop_last()) + cell_text(row.last())
    }
}

/// The rows of a code, drawn one below the other, each ended by a line feed.
pub open spec fn picture(rows: Seq<Seq<bool>>) -> Seq<char>
    decreases rows.len(),
{
    if rows.len() == 0 {
        Seq::empty()
    } else {
        picture(rows.drop_last()) + cells_text(rows.last()) + seq!['\n']
    }
}

/// Draws a matrix of modules as text.
pub fn render(matrix: &Vec<Vec<bool>>) -> (text: String)
    ensures
        text@ == picture(grid(matrix@)),
{
    let ghost rows = grid(matrix@);
    let mut text = String::new();
    proof {
        reveal_strlit("\u{2588}\u{2588}");
        reveal_strlit("  ");
        reveal_strlit("\n");
        assert(rows.take(0) =~= Seq::<Seq<bool>>::empty());
    }
    let mut y: usize = 0;
    while y < matrix.len()
        invariant
            y <= matrix.len(),
            rows == grid(matrix@),
            text@ == picture(rows.take(y as int)),
            "\u{2588}\u{2588}"@ == cell_text(true),
            "  "@ == cell_text(false),
            "\n"@ == seq!['\n'],
        decreases matrix.len() - y,
    {
        let row = &matrix[y];
        let ghost before = text@;
        proof {
            assert(row@.take(0) =~= Seq::<bool>::empty());
            assert(text@ + cells_text(row@.take(0)) =~= text@);
        }
        let mut x: usize = 0;
        while x < row.len()
            invariant
                x <= row.len(),
                text@ == before + cells_text(row@.take(x as int)),
                "\u{2588}\u{2588}"@ == cell_text(true),
                "  "@ == cell_text(false),
            decreases row.len() - x,
        {
            proof {
                assert(row@.take(x + 1).drop_last() =~= row@.take(x as int));
                assert(row@.take(x + 1).last() == row@[x as int]);
            }
            if row[x] {
                text.append("\u{2588}\u{2588}");
            } else {
                text.append("  ");
            }
            proof {
                assert(text@ =~= before + cells_text(row@.take(x + 1)));
            }
            x += 1;
        }
        text.append("\n");
        proof {
            assert(row@.take(x as int) =~= row@);
            assert(rows.take(y + 1).drop_last() =~= rows.take(y as int));
            assert(rows.take(y + 1).last() == row@);
            assert(text@ =~= picture(rows.take(y + 1)));
        }
        y += 1;
    }
    proof {
        assert(rows.take(y as int) =~= rows);
    }
    text
}

/// The QR code of `message`, drawn as text.
pub fn qr_text(message: &str) -> (drawn: Result<String, QrError>)
    ensures
        match drawn {
            Ok(text) => qr_modules(message@) is Some && text@ == picture(
                qr_modules(message@)->Some_0,
            ),
            Err(_) => qr_modules(message@) is None,
        },
{
    match encode(message) {
        Ok(matrix) => Ok(render(&matrix)),
        Err(cause) => Err(QrError { cause }),
    }
}

/// The address at which a file is offered: scheme, host, port and the
/// file's name.
pub open spec fn share_url_spec(host: Seq<char>, port: u16, name: Seq<char>) -> Seq<char> {
    "http://"@ + host + ":"@ + decimal(port as nat) + "/"@ + name
}

/// The address at which the file called `name` is offered by `host` on
/// `port`.
pub fn share_url(host: &str, port: u16, name: &str) -> (url: String)
    ensures
        url@ == share_url_spec(host@, port, name@),
{
    let mut url = "http://".to_owned();
    url.append(host);
    url.append(":");
    let number = decimal_string(port);
    url.append(number.as_str());
    url.append("/");
    url.append(name);
    url
}

} // verus!
