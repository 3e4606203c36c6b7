//! A note as a file: its name, its text and the instant at which it was
//! first seen.

use crate::boundaries::{lemma_boundaries_around_ascii, slice, slice_of};
use crate::error::JustTextError;
use crate::meta::{formatted_of, Metadatum, Timestamp};
use crate::render::{compile, compile_of};
use crate::runs::{lemma_run_len, lemma_run_len_unique, run_len};
use crate::site::Link;
use crate::template::{fields_of, page_of, render_error_text, render_fields, Field};
use crate::text::{find, first_index, other_than, replace, replaced};
use vstd::prelude::*;
use vstd::string::StringExecFns;
use vstd::utf8::{encode_utf8, encode_utf8_valid_utf8, is_char_boundary_start_end_of_seq};

verus! {

/// The byte of `/`.
pub const SLASH: u8 = 0x2f;

/// The byte of `.`.
pub const DOT: u8 = 0x2e;

/// The byte of `_`.
pub const UNDERSCORE: u8 = 0x5f;

/// The byte of `"`.
pub const QUOTE: u8 = 0x22;

/// Where the core of the file name `bytes` starts: behind its first
/// slash, or at its start where it has none.
pub open spec fn core_start(bytes: Seq<u8>) -> nat {
    if first_index(bytes, SLASH) < bytes.len() {
        first_index(bytes, SLASH) + 1
    } else {
        0
    }
}

/// Where the core of the file name `bytes` ends: at its first dot, or at
/// its end where it has none.
pub open spec fn core_end(bytes: Seq<u8>) -> nat {
    first_index(bytes, DOT)
}

/// Whether the file name `bytes` has a core: its first dot does not stand
/// before its first slash.
pub open spec fn has_core(bytes: Seq<u8>) -> bool {
    core_start(bytes) <= core_end(bytes)
}

/// The core of the file name `bytes`: what stands between its first slash
/// and its first dot.
pub open spec fn core_of(bytes: Seq<u8>) -> Seq<char> {
    slice_of(bytes, (core_start(bytes) as usize, core_end(bytes) as usize))
}

/// The title of the note with the file name `bytes`: the core with a
/// space for each underscore.
pub open spec fn title_of(bytes: Seq<u8>) -> Seq<char> {
    replaced(core_of(bytes), UNDERSCORE as char, " "@)
}

/// The target of the link to the note with the file name `bytes`.
pub open spec fn href_of(bytes: Seq<u8>) -> Seq<char> {
    "./"@ + replaced(core_of(bytes), QUOTE as char, "&quot;"@) + ".html"@
}

/// The pattern of the date of a note on its page.
pub open spec fn date_pattern() -> Seq<char> {
    "%b %e %Y"@
}

/// The message for a date that the pattern does not write out.
pub open spec fn date_message() -> Seq<char> {
    "The date of the note cannot be written"@
}

/// What the template of a page is given: the title of the note under
/// `title`, the date of its first sight under `date` and its HTML under
/// `content`.
pub open spec fn page_fields(title: Seq<char>, date: Seq<char>, content: Seq<char>) -> Seq<
    (Seq<char>, Seq<char>),
> {
    seq![("title"@, title), ("date"@, date), ("content"@, content)]
}

/// The class of the metadata that are not of the file `filename`.
pub open spec fn of_other_file(filename: Seq<char>) -> spec_fn(Metadatum) -> bool {
    |metadatum: Metadatum| metadatum.filename@ != filename
}

/// A note as a file.
pub struct Note {
    pub filename: String,
    pub content: String,
    pub created: Timestamp,
}

impl Note {
    /// The note of the file `filename` with the text `content`, first seen
    /// now.
    pub fn new(filename: String, content: String) -> (note: Note)
        ensures
            note.filename == filename,
            note.content == content,
    {
        Note::first_seen(filename, content, Timestamp::now())
    }

    /// The note of the file `filename` with the text `content`, first seen
    /// at `created`.
    pub fn first_seen(filename: String, content: String, created: Timestamp) -> (note: Note)
        ensures
            note.filename == filename,
            note.content == content,
            note.created == created,
    {
        Note { filename, content, created }
    }

    /// Takes the instant of the first of `metadata` that is of this file,
    /// where there is one.
    pub fn reconcile(&mut self, metadata: &Vec<Metadatum>)
        ensures
            final(self).filename == old(self).filename,
            final(self).content == old(self).content,
            final(self).created == if run_len(metadata@, 0, of_other_file(old(self).filename@))
                < metadata@.len() {
                metadata@[run_len(metadata@, 0, of_other_file(old(self).filename@)) as int].created
            } else {
                old(self).created
            },
    {
        let mut i: usize = 0;
        while i < metadata.len()
            invariant
                i <= metadata.len(),
                *self == *old(self),
                forall|j: int|
                    0 <= j < i ==> (#[trigger] metadata@[j]).filename@ != self.filename@,
            decreases metadata.len() - i,
        {
            if metadata[i].filename == self.filename {
                proof {
                    lemma_run_len_unique(metadata@, 0, i as int, of_other_file(self.filename@));
                }
                self.created = metadata[i].created;
                return ;
            }
            i = i + 1;
        }
        proof {
            lemma_run_len_unique(metadata@, 0, i as int, of_other_file(self.filename@));
        }
    }

    /// Whether the file name has a core.
    pub fn has_path_core(&self) -> (has: bool)
        ensures
            has == has_core(encode_utf8(self.filename@)),
    {
        let name = self.filename.as_str();
        let len = name.as_bytes().len();
        proof {
            lemma_run_len(encode_utf8(name@), 0, other_than(SLASH));
            lemma_run_len(encode_utf8(name@), 0, other_than(DOT));
        }
        let start = match find(name, SLASH) {
            Some(slash) => slash + 1,
            None => 0,
        };
        let end = match find(name, DOT) {
            Some(dot) => dot,
            None => len,
        };
        start <= end
    }

    /// The core of the file name: what stands between its first slash and
    /// its first dot.
    pub fn get_path_core(&self) -> (core: &str)
        requires
            has_core(encode_utf8(self.filename@)),
        ensures
            core@ == core_of(encode_utf8(self.filename@)),
    {
        let name = self.filename.as_str();
        let len = name.as_bytes().len();
        let ghost bytes = encode_utf8(name@);
        proof {
            encode_utf8_valid_utf8(name@);
            is_char_boundary_start_end_of_seq(bytes);
            lemma_run_len(bytes, 0, other_than(SLASH));
            lemma_run_len(bytes, 0, other_than(DOT));
        }
        let start = match find(name, SLASH) {
            Some(slash) => {
                proof {
                    lemma_boundaries_around_ascii(bytes, slash as int);
                }
                slash + 1
            },
            None => 0,
        };
        let end = match find(name, DOT) {
            Some(dot) => {
                proof {
                    lemma_boundaries_around_ascii(bytes, dot as int);
                }
                dot
            },
            None => len,
        };
        slice(name, (start, end))
    }

    /// The name of the page of this note: the core and `.html`.
    pub fn get_html_path(&self) -> (path: String)
        requires
            has_core(encode_utf8(self.filename@)),
        ensures
            path@ == core_of(encode_utf8(self.filename@)) + ".html"@,
    {
        let mut path = String::new();
        path.append(self.get_path_core());
        path.append(".html");
        path
    }

    /// The title of this note: the core with a space for each underscore.
    pub fn generate_title(&self) -> (title: String)
        requires
            has_core(encode_utf8(self.filename@)),
        ensures
            title@ == title_of(encode_utf8(self.filename@)),
    {
        let core = self.get_path_core();
        replace(core, UNDERSCORE, " ")
    }

    /// The link of the index to this note.
    pub fn generate_link(&self) -> (link: Link)
        requires
            has_core(encode_utf8(self.filename@)),
        ensures
            link.title@ == title_of(encode_utf8(self.filename@)),
            link.href@ == href_of(encode_utf8(self.filename@)),
    {
        let title = self.generate_title();
        let escaped = replace(self.get_path_core(), QUOTE, "&quot;");
        let mut href = String::new();
        href.append("./");
        href.append(escaped.as_str());
        href.append(".html");
        Link { href, title }
    }

    /// What the metadata file keeps of this note.
    pub fn to_metadatum(&self) -> (metadatum: Metadatum)
        ensures
            metadatum.filename@ == self.filename@,
            metadatum.created == self.created,
    {
        Metadatum { filename: self.filename.clone(), created: self.created }
    }

    /// The page of this note: `template` filled with the title, the date
    /// of the first sight and the HTML of the text. A text that does not
    /// compile gives no page.
    pub fn render(&self, template: &str) -> (result: Result<String, JustTextError<'static>>)
        requires
            has_core(encode_utf8(self.filename@)),
        ensures
            match compile_of(encode_utf8(self.content@)) {
                Err(message) => result matches Err(error) && error@ == message,
                Ok(html) => match formatted_of(self.created@.0, self.created@.1, date_pattern()) {
                    None => result matches Err(error) && error@ == date_message(),
                    Some(date) => match page_of(
                        template@,
                        page_fields(title_of(encode_utf8(self.filename@)), date, html),
                    ) {
                        Some(page) => result matches Ok(text) && text@ == page,
                        None => result is Err,
                    },
                },
            },
    {
        let title = self.generate_title();
        let content = match compile(self.content.as_str()) {
            Ok(html) => html,
            Err(error) => {
                return Err(JustTextError::from_string(error.to_string()));
            },
        };
        let date = match self.created.format("%b %e %Y") {
            Some(date) => date,
            None => {
                return Err(JustTextError::new("The date of the note cannot be written"));
            },
        };
        let mut fields: Vec<Field> = Vec::new();
        fields.push(("title".to_owned(), title));
        fields.push(("date".to_owned(), date));
        fields.push(("content".to_owned(), content));
        proof {
            assert(fields_of(fields@) =~= page_fields(fields@[0].1@, fields@[1].1@, fields@[2].1@));
        }
        match render_fields(template, &fields) {
            Ok(page) => Ok(page),
            Err(error) => Err(JustTextError::from_string(render_error_text(&error))),
        }
    }
}

} // verus!
