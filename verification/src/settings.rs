//! Settings of a run: command-line values override the configuration file
//! where they differ from their defaults, and per-image weights and counts
//! are looked up by full path and by file name.
use vstd::prelude::*;

verus! {

/// How the tiles are chosen.
#[derive(Debug, Clone, Copy, PartialEq, Eq, Structural)]
pub enum Mode {
    /// Counts per image from weights and bounds, in shuffled order.
    Constrained,
    /// Each tile drawn by weight among all images.
    Independent,
    /// Tiles drawn by weight, an image leaving the pool once drawn.
    WithoutReplacement,
}

/// How an image is fitted into a square tile.
#[derive(Debug, Clone, Copy, PartialEq, Eq, Structural)]
pub enum Fit {
    /// Scaled to fill the tile, then cropped.
    Cover,
    /// Scaled to fit inside the tile, on a background.
    Contain,
    /// Scaled to the tile, ignoring the aspect ratio.
    Stretch,
}

/// The mode a name selects; an unknown name selects the constrained mode.
pub open spec fn mode_named(name: Seq<char>) -> Mode {
    if name == "independent"@ {
        Mode::Independent
    } else if name == "without_replacement"@ {
        Mode::WithoutReplacement
    } else {
        Mode::Constrained
    }
}

/// The fit a name selects; an unknown name selects stretching.
pub open spec fn fit_named(name: Seq<char>) -> Fit {
    if name == "cover"@ {
        Fit::Cover
    } else if name == "contain"@ {
        Fit::Contain
    } else {
        Fit::Stretch
    }
}

/// Whether two texts are equal.
pub fn same_text(a: &str, b: &str) -> (r: bool)
    ensures
        r == (a@ == b@),
{
    let x = a.to_owned();
    let y = b.to_owned();
    x == y
}

/// The mode that `name` selects.
pub fn parse_mode(name: &str) -> (m: Mode)
    ensures
        m == mode_named(name@),
{
    if same_text(name, "independent") {
        Mode::Independent
    } else if same_text(name, "without_replacement") {
        Mode::WithoutReplacement
    } else {
        Mode::Constrained
    }
}

/// The fit that `name` selects.
pub fn parse_fit(name: &str) -> (f: Fit)
    ensures
        f == fit_named(name@),
{
    if same_text(name, "cover") {
        Fit::Cover
    } else if same_text(name, "contain") {
        Fit::Contain
    } else {
        Fit::Stretch
    }
}

/// Values given on the command line, each with its default where absent.
pub struct CommandLine {
    pub pool: Vec<String>,
    pub mode: String,
    pub tile_size: u32,
    pub fit: String,
    pub grid_size: usize,
    pub seed: u64,
    pub background: String,
    pub allow_repeat_when_pool_small: bool,
}

/// Values given in the configuration file, each optional.
pub struct ConfigFile {
    pub pool: Option<Vec<String>>,
    pub mode: Option<String>,
    pub tile_size: Option<u32>,
    pub fit: Option<String>,
    pub grid_size: Option<usize>,
    pub seed: Option<u64>,
    pub background: Option<String>,
    pub allow_repeat_when_pool_small: Option<bool>,
}

/// The settings of a run.
pub struct Settings {
    pub pool: Vec<String>,
    pub mode: String,
    pub tile_size: u32,
    pub fit: String,
    pub grid_size: usize,
    pub seed: u64,
    pub background: String,
    pub allow_repeat: bool,
}

/// Default mode name.
pub open spec fn default_mode() -> Seq<char> {
    "constrained"@
}

/// Default fit name.
pub open spec fn default_fit() -> Seq<char> {
    "cover"@
}

/// Default background.
pub open spec fn default_background() -> Seq<char> {
    "#000000"@
}

/// Default tile size in pixels.
pub const DEFAULT_TILE_SIZE: u32 = 256;

/// Default number of tiles per side.
pub const DEFAULT_GRID_SIZE: usize = 3;

/// Default seed; 0 asks for a seed from the operating system.
pub const DEFAULT_SEED: u64 = 0;

/// Fewest tiles per side.
pub const MIN_GRID_SIZE: usize = 2;

/// A command-line text that differs from its default wins; otherwise the
/// configuration file's, where given.
pub open spec fn override_text(cli: Seq<char>, default: Seq<char>, file: Option<Seq<char>>) -> Seq<
    char,
> {
    if cli != default {
        cli
    } else {
        match file {
            Some(v) => v,
            None => cli,
        }
    }
}

/// A command-line number that differs from its default wins; otherwise the
/// configuration file's, where given.
pub open spec fn override_number(cli: int, default: int, file: Option<int>) -> int {
    if cli != default {
        cli
    } else {
        match file {
            Some(v) => v,
            None => cli,
        }
    }
}

fn pick_text(cli: String, default: &str, file: Option<String>) -> (r: String)
    ensures
        r@ == override_text(
            cli@,
            default@,
            match file {
                Some(v) => Some(v@),
                None => None,
            },
        ),
{
    if !same_text(cli.as_str(), default) {
        cli
    } else {
        match file {
            Some(v) => v,
            None => cli,
        }
    }
}

/// The settings of a run from the command line and the configuration file.
/// Texts and numbers follow `override_text` and `override_number`; a pool
/// given on the command line wins over the file's, which defaults to none;
/// repeats are allowed when the command line says so, else as the file says,
/// else not; fewer than 2 tiles per side become 2.
pub fn resolve_settings(cli: CommandLine, file: ConfigFile) -> (s: Settings)
    ensures
        s.pool@ == (if cli.pool@.len() > 0 {
            cli.pool@
        } else {
            match file.pool {
                Some(p) => p@,
                None => Seq::<String>::empty(),
            }
        }),
        s.mode@ == override_text(
            cli.mode@,
            default_mode(),
            match file.mode {
                Some(v) => Some(v@),
                None => None,
            },
        ),
        s.fit@ == override_text(
            cli.fit@,
            default_fit(),
            match file.fit {
                Some(v) => Some(v@),
                None => None,
            },
        ),
        s.background@ == override_text(
            cli.background@,
            default_background(),
            match file.background {
                Some(v) => Some(v@),
                None => None,
            },
        ),
        s.tile_size == override_number(
            cli.tile_size as int,
            DEFAULT_TILE_SIZE as int,
            match file.tile_size {
                Some(v) => Some(v as int),
                None => None,
            },
        ),
        s.seed == override_number(
            cli.seed as int,
            DEFAULT_SEED as int,
            match file.seed {
                Some(v) => Some(v as int),
                None => None,
            },
        ),
        ({
            let g = override_number(
                cli.grid_size as int,
                DEFAULT_GRID_SIZE as int,
                match file.grid_size {
                    Some(v) => Some(v as int),
                    None => None,
                },
            );
            s.grid_size == if g < MIN_GRID_SIZE {
                MIN_GRID_SIZE as int
            } else {
                g
            }
        }),
        s.allow_repeat == (cli.allow_repeat_when_pool_small || match file.allow_repeat_when_pool_small {
            Some(b) => b,
            None => false,
        }),
{
    let pool = if cli.pool.len() > 0 {
        cli.pool
    } else {
        match file.pool {
            Some(p) => p,
            None => Vec::new(),
        }
    };
    let mode = pick_text(cli.mode, "constrained", file.mode);
    let fit = pick_text(cli.fit, "cover", file.fit);
    let background = pick_text(cli.background, "#000000", file.background);
    let tile_size = if cli.tile_size != DEFAULT_TILE_SIZE {
        cli.tile_size
    } else {
        match file.tile_size {
            Some(v) => v,
            None => cli.tile_size,
        }
    };
    let seed = if cli.seed != DEFAULT_SEED {
        cli.seed
    } else {
        match file.seed {
            Some(v) => v,
            None => cli.seed,
        }
    };
    let grid = if cli.grid_size != DEFAULT_GRID_SIZE {
        cli.grid_size
    } else {
        match file.grid_size {
            Some(v) => v,
            None => cli.grid_size,
        }
    };
    let grid_size = if grid < MIN_GRID_SIZE {
        MIN_GRID_SIZE
    } else {
        grid
    };
    let allow_repeat = if cli.allow_repeat_when_pool_small {
        true
    } else {
        match file.allow_repeat_when_pool_small {
            Some(b) => b,
            None => false,
        }
    };
    Settings { pool, mode, tile_size, fit, grid_size, seed, background, allow_repeat }
}

/// Number of tiles in a square grid.
pub fn tile_count(grid_size: usize) -> (n: usize)
    requires
        grid_size * grid_size <= usize::MAX,
    ensures
        n == grid_size * grid_size,
{
    grid_size * grid_size
}

/// The seed to start the generator from, or `None` where the seed is 0 and
/// the operating system is to supply one.
pub fn fixed_seed(seed: u64) -> (r: Option<u64>)
    ensures
        r == (if seed == 0 {
            None::<u64>
        } else {
            Some(seed)
        }),
{
    if seed == 0 {
        None
    } else {
        Some(seed)
    }
}

/// Where the output goes: the command line's choice, else the configuration
/// file's, else nowhere.
pub fn output_target<T>(cli: Option<T>, file: Option<T>) -> (r: Option<T>)
    ensures
        r == (match cli {
            Some(v) => Some(v),
            None => file,
        }),
{
    match cli {
        Some(v) => Some(v),
        None => file,
    }
}

/// An image's weight: the one given for its file name, else the one given
/// for its full path, else none.
pub fn image_weight<T>(by_path: Option<T>, by_name: Option<T>) -> (r: Option<T>)
    ensures
        r == (match by_name {
            Some(v) => Some(v),
            None => by_path,
        }),
{
    match by_name {
        Some(v) => Some(v),
        None => by_path,
    }
}

/// An image's count bound: the one given for its full path, else the one
/// given for its file name, else `default`.
pub fn image_bound(by_path: Option<i32>, by_name: Option<i32>, default: i32) -> (r: i32)
    ensures
        r == (match by_path {
            Some(v) => v,
            None => match by_name {
                Some(v) => v,
                None => default,
            },
        }),
{
    match by_path {
        Some(v) => v,
        None => match by_name {
            Some(v) => v,
            None => default,
        },
    }
}

/// Minimum count of an image without a configured minimum.
pub const DEFAULT_MIN_COUNT: i32 = 0;

/// Maximum count of an image without a configured maximum.
pub const DEFAULT_MAX_COUNT: i32 = i32::MAX;

} // verus!
