//! The whole way from the bytes of a font file to the bytes of the font file
//! that renders smoothly.

use crate::laws::{dehints_once, lemma_treated_file_is_stable, smoothed};
use crate::layout::{container_image, write_error, WriteError};
use crate::modify::{
    patch_head, regenerate_gasp, remove_bitmap, remove_dsig, remove_hinting, with_gasp,
    with_head_patched, without_bitmap, without_dsig, without_hinting,
};
use crate::notes::{container_notes, hinting_notes, Note};
use crate::round_trip::container_read_back;
use crate::ttc_reader::{is_as_read, parse_container, ReadError, TTCReader};
use crate::ttc_writer::TTCWriter;
use crate::types::{TTCHeader, TTCView};
use vstd::prelude::*;

verus! {

/// What of a font is to stay as it is.
#[derive(Clone, Copy, Debug, PartialEq, Eq, Structural)]
pub struct Options {
    /// Whether embedded bitmaps stay.
    pub keep_bitmap: bool,
    /// Whether the `gasp` table stays.
    pub keep_gasp: bool,
    /// Whether hinting stays.
    pub keep_hinting: bool,
}

/// Why a file cannot be converted.
#[derive(Clone, Copy, Debug, PartialEq, Eq, Structural)]
pub enum ConvertError {
    /// The file cannot be read.
    Read(ReadError),
    /// The font cannot be written.
    Write(WriteError),
}

/// What converting a file gives: what there is to tell of the hinting that
/// was to be removed, and the bytes of the new file or the reason why there
/// is none.
#[derive(Debug)]
pub struct Conversion {
    pub notes: Vec<Note>,
    pub output: Result<Vec<u8>, ConvertError>,
}

/// The container after the changes, which are made in this order: the
/// signatures are made void first, so that no later change breaks one; then
/// bitmaps and hinting are removed and the `gasp` table is replaced, each
/// unless it is to stay; the `head` table is patched last.
pub open spec fn treated(ttc: TTCView, options: Options) -> TTCView {
    let unsigned = without_dsig(ttc);
    let plain = if options.keep_bitmap {
        unsigned
    } else {
        without_bitmap(unsigned)
    };
    let dehinted = if options.keep_hinting {
        plain
    } else {
        without_hinting(plain)
    };
    let smooth = if options.keep_gasp {
        dehinted
    } else {
        with_gasp(dehinted)
    };
    with_head_patched(smooth)
}

/// Where nothing is to stay, the whole treatment.
pub open spec fn change_all() -> Options {
    Options { keep_bitmap: false, keep_gasp: false, keep_hinting: false }
}

/// What there is to tell of the hinting of a file when it is converted:
/// nothing where the file cannot be read or hinting is to stay.
pub open spec fn notes_of(data: Seq<u8>, options: Options) -> Seq<Note> {
    match parse_container(data) {
        Ok(ttc) => if options.keep_hinting {
            Seq::empty()
        } else {
            container_notes(ttc.fonts, ttc.fonts.len())
        },
        Err(_) => Seq::empty(),
    }
}

/// The bytes of the converted file, or why the file cannot be converted.
pub open spec fn converted(data: Seq<u8>, options: Options) -> Result<Seq<u8>, ConvertError> {
    match parse_container(data) {
        Ok(ttc) => match write_error(treated(ttc, options)) {
            None => Ok(container_image(treated(ttc, options))),
            Some(e) => Err(ConvertError::Write(e)),
        },
        Err(e) => Err(ConvertError::Read(e)),
    }
}

/// Makes the changes to the container, in their order.
pub fn treat(ttc: &mut TTCHeader, options: Options)
    ensures
        final(ttc)@ == treated(old(ttc)@, options),
{
    remove_dsig(ttc);
    if !options.keep_bitmap {
        remove_bitmap(ttc);
    }
    if !options.keep_hinting {
        remove_hinting(ttc);
    }
    if !options.keep_gasp {
        regenerate_gasp(ttc);
    }
    patch_head(ttc);
}

/// The bytes of a converted file, if there are any.
pub open spec fn output_view(output: Result<Vec<u8>, ConvertError>) -> Result<
    Seq<u8>,
    ConvertError,
> {
    match output {
        Ok(bytes) => Ok(bytes@),
        Err(e) => Err(e),
    }
}

/// Converts a font file: reads it, makes the changes, and writes it.
pub fn convert(input: &[u8], options: Options) -> (done: Conversion)
    ensures
        done.notes@ == notes_of(input@, options),
        output_view(done.output) == converted(input@, options),
{
    let mut ttc = match TTCReader::new(input).read_ttc() {
        Ok(ttc) => ttc,
        Err(e) => {
            return Conversion { notes: Vec::new(), output: Err(ConvertError::Read(e)) };
        },
    };
    let notes = if options.keep_hinting {
        Vec::new()
    } else {
        hinting_notes(&ttc)
    };
    treat(&mut ttc, options);
    let output = match TTCWriter::new().write_ttc(&ttc) {
        Ok(bytes) => Ok(bytes),
        Err(e) => Err(ConvertError::Write(e)),
    };
    Conversion { notes, output }
}

/// The whole treatment is the treatment where nothing is to stay.
pub proof fn lemma_treated_all(ttc: TTCView)
    ensures
        treated(ttc, change_all()) == smoothed(ttc),
{
}

/// Converting a converted file changes nothing: where a file is converted
/// with nothing to stay, converting the outcome gives the outcome again, as
/// long as the padding of the new glyph stream makes no glyph whole that
/// was cut short.
pub proof fn lemma_converted_twice(data: Seq<u8>)
    requires
        converted(data, change_all()) is Ok,
        forall|i: int|
            0 <= i < parse_container(data)->Ok_0.fonts.len() ==> dehints_once(
                (#[trigger] parse_container(data)->Ok_0.fonts[i]).tables,
            ),
    ensures
        converted(converted(data, change_all())->Ok_0, change_all()) == converted(data, change_all()),
{
    let ttc = parse_container(data)->Ok_0;
    crate::ttc_reader::lemma_parsed_is_as_read(data);
    lemma_treated_all(ttc);
    lemma_treated_file_is_stable(ttc);
    lemma_treated_all(container_read_back(smoothed(ttc)));
}

} // verus!
