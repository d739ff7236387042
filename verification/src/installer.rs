//! The installer's directory layout: every path below the installation
//! root, computed from plain values. Downloading, unpacking and running
//! build tools happen outside the library.
use vstd::prelude::*;
use vstd::string::{StrSliceExecFns, StringExecFns};

verus! {

/// Where gems are installed and cached.
#[derive(Debug)]
pub struct GemInstaller {
    pub install_base_dir: String,
    pub cache_dir: String,
    pub base_url: String,
    pub ruby_version: String,
}

impl GemInstaller {
    /// An installer over the given directories, source and interpreter
    /// version.
    pub fn new(
        install_base_dir: String,
        cache_dir: String,
        base_url: String,
        ruby_version: String,
    ) -> (r: GemInstaller)
        ensures
            r.install_base_dir@ == install_base_dir@,
            r.cache_dir@ == cache_dir@,
            r.base_url@ == base_url@,
            r.ruby_version@ == ruby_version@,
    {
        GemInstaller { install_base_dir, cache_dir, base_url, ruby_version }
    }

    /// `<root>/gems/<ruby-version>`.
    pub fn get_gems_base_dir(&self) -> (r: String)
        ensures
            r@ == self.install_base_dir@ + "/gems/"@ + self.ruby_version@,
    {
        let mut out = String::new();
        out.append(self.install_base_dir.as_str());
        out.append("/gems/");
        out.append(self.ruby_version.as_str());
        proof {
            assert(out@ =~= self.install_base_dir@ + "/gems/"@ + self.ruby_version@);
        }
        out
    }

    /// `<base>/gems`.
    pub fn get_gems_dir(&self) -> (r: String)
        ensures
            r@ == self.install_base_dir@ + "/gems/"@ + self.ruby_version@ + "/gems"@,
    {
        let mut out = self.get_gems_base_dir();
        out.append("/gems");
        out
    }

    /// `<base>/specifications`.
    pub fn get_specifications_dir(&self) -> (r: String)
        ensures
            r@ == self.install_base_dir@ + "/gems/"@ + self.ruby_version@ + "/specifications"@,
    {
        let mut out = self.get_gems_base_dir();
        out.append("/specifications");
        out
    }

    /// `<base>/extensions`.
    pub fn get_extensions_dir(&self) -> (r: String)
        ensures
            r@ == self.install_base_dir@ + "/gems/"@ + self.ruby_version@ + "/extensions"@,
    {
        let mut out = self.get_gems_base_dir();
        out.append("/extensions");
        out
    }

    /// `<base>/bin`.
    pub fn get_bin_dir(&self) -> (r: String)
        ensures
            r@ == self.install_base_dir@ + "/gems/"@ + self.ruby_version@ + "/bin"@,
    {
        let mut out = self.get_gems_base_dir();
        out.append("/bin");
        out
    }

    /// The directory one installed gem unpacks into.
    pub fn installed_gem_dir(&self, name: &str, version: &str) -> (r: String)
        ensures
            r@ == self.install_base_dir@ + "/gems/"@ + self.ruby_version@ + "/gems/"@ + name@
                + "-"@ + version@,
    {
        let mut out = self.get_gems_dir();
        out.append("/");
        out.append(name);
        out.append("-");
        out.append(version);
        proof {
            reveal_strlit("/gems");
            reveal_strlit("/");
            reveal_strlit("/gems/");
            assert(out@ =~= self.install_base_dir@ + "/gems/"@ + self.ruby_version@ + "/gems/"@
                + name@ + "-"@ + version@);
        }
        out
    }

    /// The path of one installed gem's specification file.
    pub fn installed_gemspec_path(&self, name: &str, version: &str) -> (r: String)
        ensures
            r@ == self.install_base_dir@ + "/gems/"@ + self.ruby_version@ + "/specifications/"@
                + name@ + "-"@ + version@ + ".gemspec"@,
    {
        let mut out = self.get_specifications_dir();
        out.append("/");
        out.append(name);
        out.append("-");
        out.append(version);
        out.append(".gemspec");
        proof {
            reveal_strlit("/specifications");
            reveal_strlit("/");
            reveal_strlit("/specifications/");
            assert(out@ =~= self.install_base_dir@ + "/gems/"@ + self.ruby_version@
                + "/specifications/"@ + name@ + "-"@ + version@ + ".gemspec"@);
        }
        out
    }
}

} // verus!
