//! Test-runner configuration: the settings the assertion core's callers
//! tune, and the variable table they populate for resolution.

use vstd::prelude::*;

use crate::bindings::{str_eq, Bindings};

verus! {

/// Default number of context lines to which debug output is truncated.
pub const DEFAULT_MAX_OUTPUT_CONTEXT_LINE_COUNT: usize = 10;

/// The configuration of the test runner.
///
/// Path-valued settings are held as plain strings; resolving them against
/// the filesystem (canonicalizing them, filtering them to directories, or
/// creating temporary files for dynamically looked-up variables) is I/O
/// and stays with the caller, as does the dynamic variable-lookup function
/// itself: `lookup_variable` takes that function's answer as an argument.
#[derive(Clone, Debug)]
pub struct Config {
    /// A list of file extensions which contain tests.
    pub supported_file_extensions: Vec<String>,
    /// Paths to tests or folders containing tests.
    pub test_paths: Vec<String>,
    /// Constants that tests can refer to by name.
    pub constants: Bindings,
    /// Whether temporary files generated by the tests should be cleaned
    /// up, where possible.
    pub cleanup_temporary_files: bool,
    /// Export all generated test artifacts to the specified directory.
    pub save_artifacts_to_directory: Option<String>,
    /// Whether verbose information about resolved variables should be
    /// printed to the standard error stream.
    pub dump_variable_resolution: bool,
    /// If set, debug output should be truncated to this many context
    /// lines.
    pub truncate_output_context_to_number_of_lines: Option<usize>,
    /// Extra directories that should be included in the executable search
    /// path when running processes specified inside the tests.
    pub extra_executable_search_paths: Vec<String>,
    /// Whether messages on the standard error stream emitted during test
    /// runs should always be shown.
    pub always_show_stderr: bool,
    /// Which shell to use.
    pub shell: String,
    /// Environment variables to be used on test invocation.
    pub env_variables: Bindings,
}

impl Config {
    /// Marks a file extension as supported by the runner: only files
    /// within the extension whitelist have their tests run.
    pub fn add_extension(&mut self, ext: &str)
        ensures
            final (self).supported_file_extensions.deep_view() == old(
                self,
            ).supported_file_extensions.deep_view().push(ext@),
            *final (self) == (Config {
                supported_file_extensions: final (self).supported_file_extensions,
                ..*old(self)
            }),
    {
        self.supported_file_extensions.push(ext.to_owned());
        proof {
            assert(self.supported_file_extensions.deep_view() =~= old(
                self,
            ).supported_file_extensions.deep_view().push(ext@));
        }
    }

    /// Marks multiple file extensions as supported by the runner.
    pub fn add_extensions(&mut self, extensions: &[&str])
        ensures
            final (self).supported_file_extensions.deep_view() == old(
                self,
            ).supported_file_extensions.deep_view() + extensions.deep_view(),
            *final (self) == (Config {
                supported_file_extensions: final (self).supported_file_extensions,
                ..*old(self)
            }),
    {
        let ghost base = self.supported_file_extensions.deep_view();
        let ghost orig = *self;
        let n = extensions.len();
        let mut i: usize = 0;
        proof {
            assert(base + extensions.deep_view().subrange(0, 0) =~= base);
        }
        while i < n
            invariant
                i <= n,
                n == extensions@.len(),
                self.supported_file_extensions.deep_view() == base
                    + extensions.deep_view().subrange(0, i as int),
                *self == (Config {
                    supported_file_extensions: self.supported_file_extensions,
                    ..orig
                }),
            decreases n - i,
        {
            proof {
                assert(self.supported_file_extensions.deep_view().len() == base.len() + i);
                assert(self.supported_file_extensions@.len() == base.len() + i);
            }
            self.supported_file_extensions.push(extensions[i].to_owned());
            proof {
                let ghost d = self.supported_file_extensions.deep_view();
                let ghost rhs = base + extensions.deep_view().subrange(0, i + 1 as int);
                assert(extensions.deep_view().len() == extensions@.len());
                assert(extensions.deep_view().subrange(0, i as int).len() == i as int);
                assert(d.len() == self.supported_file_extensions@.len());
                assert(self.supported_file_extensions@.len() == base.len() + i + 1);
                assert(d.len() == base.len() + i + 1);
                assert(rhs.len() == base.len() + i + 1);
                assert forall|k: int| 0 <= k < d.len() implies d[k] == rhs[k] by {
                    assert(d[k] == self.supported_file_extensions@[k].deep_view());
                    if k < base.len() + i {
                        assert(d[k] == (base + extensions.deep_view().subrange(0, i as int))[k]);
                    } else {
                        assert(self.supported_file_extensions@[k]@ == extensions@[i as int]@);
                        assert(rhs[k] == extensions.deep_view()[i as int]);
                    }
                }
                assert(d =~= rhs);
            }
            i = i + 1;
        }
        proof {
            assert(extensions.deep_view().subrange(0, n as int) =~= extensions.deep_view());
        }
    }

    /// Adds a search path to the test runner; tests are looked for under
    /// it.  The path is stored as given: resolving it against the
    /// filesystem is the caller's concern.
    pub fn add_search_path(&mut self, path: &str)
        ensures
            final (self).test_paths.deep_view() == old(self).test_paths.deep_view().push(path@),
            *final (self) == (Config { test_paths: final (self).test_paths, ..*old(self) }),
    {
        self.test_paths.push(path.to_owned());
        proof {
            assert(self.test_paths.deep_view() =~= old(self).test_paths.deep_view().push(path@));
        }
    }

    /// Adds an extra directory to the executable search path used when
    /// running processes specified inside the tests.
    pub fn add_executable_search_path(&mut self, path: &str)
        ensures
            final (self).extra_executable_search_paths.deep_view() == old(
                self,
            ).extra_executable_search_paths.deep_view().push(path@),
            *final (self) == (Config {
                extra_executable_search_paths: final (self).extra_executable_search_paths,
                ..*old(self)
            }),
    {
        self.extra_executable_search_paths.push(path.to_owned());
        proof {
            assert(self.extra_executable_search_paths.deep_view() =~= old(
                self,
            ).extra_executable_search_paths.deep_view().push(path@));
        }
    }

    /// Checks whether tests are run on files with the given extension.
    pub fn is_extension_supported(&self, extension: &str) -> (r: bool)
        ensures
            r == self.supported_file_extensions.deep_view().contains(extension@),
    {
        let n = self.supported_file_extensions.len();
        let mut i: usize = 0;
        while i < n
            invariant
                i <= n,
                n == self.supported_file_extensions@.len(),
                forall|k: int|
                    0 <= k < i ==> self.supported_file_extensions.deep_view()[k] != extension@,
            decreases n - i,
        {
            if str_eq(self.supported_file_extensions[i].as_str(), extension) {
                assert(self.supported_file_extensions.deep_view()[i as int] == extension@);
                return true;
            }
            i = i + 1;
        }
        false
    }

    /// Looks up a variable, recording a dynamically provided value the
    /// first time a name is seen.
    ///
    /// The dynamic lookup itself (the configuration layer's own function,
    /// which may for instance allocate a fresh temporary file path) runs
    /// outside this library; its answer for `name` is handed in as
    /// `fresh`.  When `name` is already bound, `variables` is left alone
    /// and the bound value is returned; otherwise a provided `fresh` value
    /// is recorded and returned; `None` comes back exactly when `name` is
    /// unbound and no value was provided.
    pub fn lookup_variable(&self, name: &str, variables: &mut Bindings, fresh: Option<&str>) -> (r:
        Option<String>)
        ensures
            old(variables)@.contains_key(name@) ==> *final (variables) == *old(variables) && (
            r matches Some(v) && v@ == old(variables)@[name@]),
            !old(variables)@.contains_key(name@) && fresh is Some ==> (final (variables)@ == old(
                variables,
            )@.insert(name@, fresh->0@) && (r matches Some(v) && v@ == fresh->0@)),
            !old(variables)@.contains_key(name@) && fresh is None ==> *final (variables) == *old(variables) && r is None,
    {
        if !variables.contains_key(name) {
            match fresh {
                Some(f) => {
                    variables.insert(name, f);
                },
                None => {},
            }
        }
        match variables.get(name) {
            Some(v) => Some(v.clone()),
            None => None,
        }
    }
}

impl Default for Config {
    /// The default configuration: no extensions, no search paths, no
    /// constants, cleanup on, artifacts not saved, output truncated to the
    /// default number of context lines, and the `bash` shell.
    fn default() -> (c: Config)
        ensures
            c.supported_file_extensions@.len() == 0,
            c.test_paths@.len() == 0,
            c.constants@ == Map::<Seq<char>, Seq<char>>::empty(),
            c.cleanup_temporary_files,
            c.save_artifacts_to_directory is None,
            !c.dump_variable_resolution,
            c.truncate_output_context_to_number_of_lines == Some(
                DEFAULT_MAX_OUTPUT_CONTEXT_LINE_COUNT,
            ),
            c.extra_executable_search_paths@.len() == 0,
            !c.always_show_stderr,
            c.shell@ == "bash"@,
            c.env_variables@ == Map::<Seq<char>, Seq<char>>::empty(),
    {
        Config {
            supported_file_extensions: Vec::new(),
            test_paths: Vec::new(),
            constants: Bindings::new(),
            cleanup_temporary_files: true,
            save_artifacts_to_directory: None,
            dump_variable_resolution: false,
            truncate_output_context_to_number_of_lines: Some(
                DEFAULT_MAX_OUTPUT_CONTEXT_LINE_COUNT,
            ),
            extra_executable_search_paths: Vec::new(),
            always_show_stderr: false,
            shell: "bash".to_owned(),
            env_variables: Bindings::new(),
        }
    }
}

} // verus!
