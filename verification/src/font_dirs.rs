//! Which directories of font files a run shapes with, and how a finished
//! download joins them.
use vstd::prelude::*;
use crate::cli::Mode;
use crate::font_panel::includes;
use crate::styles::texts;

verus! {

/// The font directories of a configuration, as the shaper compares them.
pub struct FontDirs {
    /// Directories of font files beyond the machine's own fonts.
    pub directories: Vec<String>,
    /// Shape with `directories` alone, never with the machine's fonts.
    pub ignore_system_fonts: bool,
    /// Bumped whenever the faces behind the directories change.
    pub revision: u64,
}

/// The reader's font sources: the configured set plus the personal download
/// directory, for the reader window only, and not when the run pinned its
/// set. Exports are built from the configuration itself, which never gains
/// that directory.
pub fn reader_fonts(config: &FontDirs, mode: Mode, personal: Option<String>) -> (r: FontDirs)
    ensures
        r.ignore_system_fonts == config.ignore_system_fonts,
        r.revision == config.revision,
        texts(r.directories@) == if mode == Mode::Window && !config.ignore_system_fonts
            && personal is Some {
            texts(config.directories@).push(personal->0@)
        } else {
            texts(config.directories@)
        },
{
    let mut directories = crate::fonts_command::copy_texts(config.directories.as_slice());
    if mode == Mode::Window && !config.ignore_system_fonts {
        if let Some(dir) = personal {
            let ghost before = directories@;
            directories.push(dir);
            proof {
                assert(texts(directories@) =~= texts(before).push(personal->0@));
            }
        }
    }
    FontDirs {
        directories,
        ignore_system_fonts: config.ignore_system_fonts,
        revision: config.revision,
    }
}

/// Records a finished download that stored `stored` files into `dir`,
/// returning whether the configuration changed. A job that stored nothing
/// leaves it alone; otherwise the directory is added once and the revision
/// always moves on (wrapping), since the same paths now name new faces.
pub fn register_font_dir(config: &mut FontDirs, dir: String, stored: u64) -> (r: bool)
    ensures
        r == (stored > 0),
        final(config).ignore_system_fonts == old(config).ignore_system_fonts,
        !r ==> texts(final(config).directories@) == texts(old(config).directories@)
            && final(config).revision == old(config).revision,
        r ==> final(config).revision == (if old(config).revision == u64::MAX {
            0
        } else {
            old(config).revision + 1
        }),
        r ==> texts(final(config).directories@) == if includes(
            texts(old(config).directories@),
            dir@,
        ) {
            texts(old(config).directories@)
        } else {
            texts(old(config).directories@).push(dir@)
        },
{
    if stored == 0 {
        return false;
    }
    let known = match crate::styles::find_id(config.directories.as_slice(), dir.as_str()) {
        Some(_) => true,
        None => false,
    };
    proof {
        crate::styles::lemma_first_index(texts(config.directories@), dir@);
        if includes(texts(config.directories@), dir@) {
            let k = choose|k: int|
                0 <= k < texts(config.directories@).len() && texts(config.directories@)[k]
                    == dir@;
            assert(texts(config.directories@)[k] == dir@);
        }
    }
    if !known {
        let ghost before = config.directories@;
        config.directories.push(dir);
        proof {
            assert(texts(config.directories@) =~= texts(before).push(dir@));
        }
    }
    config.revision = if config.revision == u64::MAX {
        0
    } else {
        config.revision + 1
    };
    true
}

/// Registering downloads never lists a directory twice.
pub proof fn a_directory_is_listed_once(dirs: Seq<Seq<char>>, dir: Seq<char>)
    requires
        crate::font_panel::unique_ids(dirs),
    ensures
        crate::font_panel::unique_ids(
            if includes(dirs, dir) {
                dirs
            } else {
                dirs.push(dir)
            },
        ),
{
    if !includes(dirs, dir) {
        let d = dirs.push(dir);
        assert forall|i: int, j: int| 0 <= i < j < d.len() implies d[i] != d[j] by {
            if j == dirs.len() {
                assert(d[i] == dirs[i]);
                if d[i] == d[j] {
                    assert(dirs.contains(dir));
                }
            }
        }
    }
}

} // verus!
