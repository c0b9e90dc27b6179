//! The project's own configuration file, laid over the user's configuration.
//!
//! A field that the file sets replaces the field of the user's configuration; a field that
//! it does not set stays. A file that is missing or cannot be read changes nothing: a typo
//! in it must not stop indexing.

use vstd::prelude::*;

use crate::paths::{join, joined};
use crate::text::texts;
use crate::types::{ConfigView, SakuinConfig};

verus! {

/// The name of the project's configuration file.
pub const PROJECT_CONFIG_FILE: &'static str = "sakuin.toml";

/// What a project's configuration file sets. A field that the file does not mention is
/// `None`, which differs from one that is set to an empty value.
#[derive(Debug)]
pub struct ProjectConfig {
    pub max_file_size: Option<u64>,
    pub ignore_patterns: Option<Vec<String>>,
    pub include_patterns: Option<Vec<String>>,
    pub include_extensions: Option<Vec<String>>,
    pub respect_gitignore: Option<bool>,
}

impl Default for ProjectConfig {
    fn default() -> (r: ProjectConfig)
        ensures
            r.sets_nothing(),
    {
        ProjectConfig {
            max_file_size: None,
            ignore_patterns: None,
            include_patterns: None,
            include_extensions: None,
            respect_gitignore: None,
        }
    }
}

impl ProjectConfig {
    /// The file sets no field.
    pub open spec fn sets_nothing(&self) -> bool {
        &&& self.max_file_size is None
        &&& self.ignore_patterns is None
        &&& self.include_patterns is None
        &&& self.include_extensions is None
        &&& self.respect_gitignore is None
    }

    /// The configuration `base` with the fields that the file sets.
    pub open spec fn laid_over(&self, base: ConfigView) -> ConfigView {
        ConfigView {
            max_file_size: match self.max_file_size {
                Some(v) => v,
                None => base.max_file_size,
            },
            ignore_patterns: match self.ignore_patterns {
                Some(v) => texts(v@),
                None => base.ignore_patterns,
            },
            include_patterns: match self.include_patterns {
                Some(v) => Some(texts(v@)),
                None => base.include_patterns,
            },
            include_extensions: match self.include_extensions {
                Some(v) => Some(texts(v@)),
                None => base.include_extensions,
            },
            respect_gitignore: match self.respect_gitignore {
                Some(v) => v,
                None => base.respect_gitignore,
            },
            log_level: base.log_level,
            log_file: base.log_file,
        }
    }

    /// Replace the fields of `config` that the file sets.
    pub fn overlay(self, config: &mut SakuinConfig)
        ensures
            final(config)@ == self.laid_over(old(config)@),
    {
        match self.max_file_size {
            Some(v) => {
                config.max_file_size = v;
            },
            None => {},
        }
        match self.ignore_patterns {
            Some(v) => {
                config.ignore_patterns = v;
            },
            None => {},
        }
        match self.include_patterns {
            Some(v) => {
                config.include_patterns = Some(v);
            },
            None => {},
        }
        match self.include_extensions {
            Some(v) => {
                config.include_extensions = Some(v);
            },
            None => {},
        }
        match self.respect_gitignore {
            Some(v) => {
                config.respect_gitignore = v;
            },
            None => {},
        }
    }
}

/// Where the configuration file of a project is.
pub fn project_config_path(project_root: &str) -> (r: String)
    ensures
        r@ == joined(project_root@, PROJECT_CONFIG_FILE@),
{
    join(project_root, PROJECT_CONFIG_FILE)
}

/// Lay the project's configuration over `config`. `project` is `None` where the file is
/// missing, cannot be read or does not parse.
pub fn apply(project: Option<ProjectConfig>, config: &mut SakuinConfig)
    ensures
        final(config)@ == (match project {
            Some(p) => p.laid_over(old(config)@),
            None => old(config)@,
        }),
{
    match project {
        Some(p) => {
            p.overlay(config);
        },
        None => {},
    }
}

/// A file that sets nothing changes nothing.
pub proof fn empty_overlay_is_identity(project: &ProjectConfig, base: ConfigView)
    requires
        project.sets_nothing(),
    ensures
        project.laid_over(base) == base,
{
}

/// Laying the same file over twice is the same as laying it over once, and no file reaches
/// the logging fields.
pub proof fn overlay_is_idempotent(project: &ProjectConfig, base: ConfigView)
    ensures
        project.laid_over(project.laid_over(base)) == project.laid_over(base),
        project.laid_over(base).log_level == base.log_level,
        project.laid_over(base).log_file == base.log_file,
{
}

/// A field that the file sets prevails, even where it is set to something empty; a field that
/// it does not set stays, whatever the others are.
pub proof fn each_field_is_laid_over_alone(project: &ProjectConfig, base: ConfigView)
    ensures
        project.max_file_size matches Some(v) ==> project.laid_over(base).max_file_size == v,
        project.max_file_size is None ==> project.laid_over(base).max_file_size
            == base.max_file_size,
        project.ignore_patterns matches Some(v) ==> project.laid_over(base).ignore_patterns
            == v@.map_values(|x: String| x@),
        project.ignore_patterns is None ==> project.laid_over(base).ignore_patterns
            == base.ignore_patterns,
        project.include_patterns matches Some(v) ==> project.laid_over(base).include_patterns
            == Some(v@.map_values(|x: String| x@)),
        project.include_patterns is None ==> project.laid_over(base).include_patterns
            == base.include_patterns,
        project.include_extensions matches Some(v) ==> project.laid_over(base).include_extensions
            == Some(v@.map_values(|x: String| x@)),
        project.include_extensions is None ==> project.laid_over(base).include_extensions
            == base.include_extensions,
        project.respect_gitignore matches Some(v) ==> project.laid_over(base).respect_gitignore == v,
        project.respect_gitignore is None ==> project.laid_over(base).respect_gitignore
            == base.respect_gitignore,
        project.sets_nothing() <==> project.max_file_size is None && project.ignore_patterns is None
            && project.include_patterns is None && project.include_extensions is None
            && project.respect_gitignore is None,
        PROJECT_CONFIG_FILE@ == "sakuin.toml"@,
{
    if let Some(v) = project.ignore_patterns {
        assert(texts(v@) =~= v@.map_values(|x: String| x@));
    }
    if let Some(v) = project.include_patterns {
        assert(texts(v@) =~= v@.map_values(|x: String| x@));
    }
    if let Some(v) = project.include_extensions {
        assert(texts(v@) =~= v@.map_values(|x: String| x@));
    }
}

} // verus!
