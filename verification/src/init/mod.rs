//! `init-config`: a config generated from the layout of the project.
//!
//! `data.read` is derived from the locale files that are there, and every one
//! of them is held against the rule by which the loader reads it. `data.write`
//! is the first target that those patterns read back. `base_locale` comes from
//! the Ruby of the project, read as text. `search.relative_roots` holds the
//! defaults that exist, and every directory with a relative key in it.
//!
//! The work has three parts: [`detect`] looks at the project, [`render`] writes
//! the file, and [`verify`] says what that file reads.
pub mod detect;
pub mod layout;
pub mod render;
pub mod reading;
pub mod settings;
pub mod verify;

use crate::init::detect::{Detected, DetectedV};
use crate::init::render::{generated_config, render};
use crate::init::verify::{Verification, VerificationV};
use crate::text::{concat, push_text};
use vstd::prelude::*;

verus! {

/// The file that the generated config is written to.
pub const INIT_TARGET: &'static str = "config/i18n-tasks-rs.yml";

/// A generated config, and how it came about.
pub struct Generated {
    pub output: String,
    pub detected: Detected,
    pub verified: Verification,
}

/// What a [`Generated`] holds.
pub struct GeneratedV {
    pub output: Seq<char>,
    pub detected: DetectedV,
    pub verified: VerificationV,
}

impl View for Generated {
    type V = GeneratedV;

    open spec fn view(&self) -> GeneratedV {
        GeneratedV {
            output: self.output@,
            detected: self.detected@,
            verified: self.verified@,
        }
    }
}

impl Generated {
    /// The generated config still needs a human.
    pub fn needs_attention(&self) -> (b: bool)
        ensures
            b == (self.detected.notes.len() > 0 || self.detected.gem_config is Some),
    {
        self.detected.notes.len() > 0 || self.detected.gem_config.is_some()
    }
}

/// What is noted of a config once it was read back.
pub open spec fn read_back_notes(detected: DetectedV, verified: VerificationV) -> Seq<Seq<char>> {
    match verified.error {
        Some(e) => detected.notes.push("the generated config did not load: "@ + e),
        None => if verified.key_count == 0 && detected.files_seen > 0 {
            detected.notes.push(
                "the generated config loaded no keys. Check that each locale file has its locale as the single top-level key."@,
            )
        } else {
            detected.notes
        },
    }
}

/// The generated config. `verified` is what the draft of it, rendered without a
/// verification, reads.
pub fn generate(detected: Detected, verified: Verification) -> (g: Generated)
    ensures
        ({
            let all = DetectedV {
                notes: read_back_notes(detected@, verified@),
                ..detected@
            };
            g@ == (GeneratedV {
                output: generated_config(all, Some(verified@)),
                detected: all,
                verified: verified@,
            })
        }),
{
    let mut detected = detected;
    match &verified.error {
        Some(e) => {
            push_text(
                &mut detected.notes,
                concat("the generated config did not load: ", e),
            );
        },
        None => {
            if verified.key_count == 0 && detected.files_seen > 0 {
                push_text(
                    &mut detected.notes,
                    "the generated config loaded no keys. Check that each locale file has its locale as the single top-level key.".to_owned(),
                );
            }
        },
    }
    let output = render(&detected, Some(&verified));
    Generated { output, detected, verified }
}

} // verus!
