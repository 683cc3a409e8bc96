use vstd::prelude::*;
use vstd::string::*;

verus! {

/// A package version, as `semver` reads it from `vid.toml`.
#[verifier::external_type_specification]
#[verifier::external_body]
pub struct ExVersion(semver::Version);

/// The aspect ratio a project gets when its `vid.toml` names none.
pub fn default_aspect_ratio() -> (res: String)
    ensures
        res@ == "16:9"@,
{
    String::from_str("16:9")
}

/// Defines that this Vid module is a project, aka a video itself. If you
/// intend to create reusable components for other videos, use the `package`
/// key instead.
#[derive(Debug)]
pub struct DefProject {
    /// Project name. Must be a valid identifier, like `my_awesome_video`
    pub name: String,
    /// Aspect ratio for the project. Should be in the format `4:3`. Defaults
    /// to `16:9`
    pub aspect_ratio: String,
}

/// Defines that this Vid module is a package aka library. In other words, it
/// is not a full video itself, but instead features reusable components for
/// making other videos.
#[derive(Debug)]
pub struct DefPackage {
    /// Package name. Must be a valid identifier, like `std` or `my_video_tools`
    pub name: String,
    /// Package description
    pub description: String,
    /// Package version. This should follow the RomVer standard
    pub version: semver::Version,
    /// URL to a GitHub repository or equivalent place where the source code
    /// and/or docs and/or homepage for this package can be found
    pub repository: Option<String>,
}

/// Whether a `vid.toml` describes a project or a package.
#[derive(Debug)]
#[allow(non_camel_case_types)]
pub enum VidType {
    project(DefProject),
    package(DefPackage),
}

/// The contents of a package's `vid.toml`: what it is, and the packages it
/// uses (by name, with where to find them), in the order they are listed.
#[derive(Debug)]
pub struct VidToml {
    pub ty: VidType,
    pub packages: Vec<(String, String)>,
}

impl VidToml {
    /// The name of the project or package.
    pub open spec fn spec_name(&self) -> Seq<char> {
        match self.ty {
            VidType::project(p) => p.name@,
            VidType::package(p) => p.name@,
        }
    }

    pub fn name(&self) -> (res: &str)
        ensures
            res@ == self.spec_name(),
    {
        match &self.ty {
            VidType::project(p) => p.name.as_str(),
            VidType::package(p) => p.name.as_str(),
        }
    }

    /// The configuration of a test project named `name`, with the default
    /// aspect ratio and no packages.
    pub fn new_test(name: &str) -> (res: Self)
        ensures
            res.ty matches VidType::project(p) && p.name@ == name@ && p.aspect_ratio@ == "16:9"@,
            res.packages@.len() == 0,
    {
        Self {
            ty: VidType::project(
                DefProject { name: String::from_str(name), aspect_ratio: default_aspect_ratio() },
            ),
            packages: Vec::new(),
        }
    }
}

} // verus!
