use vstd::prelude::*;

verus! {

/// The build recipe of a package: commands run in its checkout directory, in order.
pub struct Formula {
    pub install_cmds: Vec<String>,
}

/// A package manifest: its name, where its source lives, the names it depends on,
/// and its formula.
pub struct Package {
    pub name: String,
    pub git_repository: String,
    pub dependencies: Vec<String>,
    pub formula: Formula,
}

/// Construction of a formula from its command list.
pub trait IFormula: Sized {
    spec fn commands(&self) -> Seq<String>;

    fn new(install_cmds: Vec<String>) -> (r: Self)
        ensures
            r.commands() == install_cmds@,
    ;
}

/// Construction of a package manifest.
pub trait IPackage: Sized {
    spec fn name_view(&self) -> Seq<char>;

    spec fn repository_view(&self) -> Seq<char>;

    spec fn dependency_list(&self) -> Seq<String>;

    spec fn command_list(&self) -> Seq<String>;

    fn new(name: &str, git_repository: &str, dependencies: Vec<String>, formula: Formula) -> (r:
        Self)
        ensures
            r.name_view() == name@,
            r.repository_view() == git_repository@,
            r.dependency_list() == dependencies@,
            r.command_list() == formula.install_cmds@,
    ;

    /// The placeholder package: named `default`, repository `empty`, no
    /// dependencies, and the single command `empty`.
    fn empty_package() -> (r: Self)
        ensures
            r.name_view() == "default"@,
            r.repository_view() == "empty"@,
            r.dependency_list().len() == 0,
            r.command_list().len() == 1,
            r.command_list()[0]@ == "empty"@,
    ;
}

impl IFormula for Formula {
    open spec fn commands(&self) -> Seq<String> {
        self.install_cmds@
    }

    fn new(install_cmds: Vec<String>) -> (r: Self) {
        Formula { install_cmds }
    }
}

impl IPackage for Package {
    open spec fn name_view(&self) -> Seq<char> {
        self.name@
    }

    open spec fn repository_view(&self) -> Seq<char> {
        self.git_repository@
    }

    open spec fn dependency_list(&self) -> Seq<String> {
        self.dependencies@
    }

    open spec fn command_list(&self) -> Seq<String> {
        self.formula.install_cmds@
    }

    fn new(name: &str, git_repository: &str, dependencies: Vec<String>, formula: Formula) -> (r:
        Self) {
        Package {
            name: name.to_string(),
            git_repository: git_repository.to_string(),
            dependencies,
            formula,
        }
    }

    fn empty_package() -> (r: Self) {
        let mut cmds: Vec<String> = Vec::new();
        cmds.push("empty".to_string());
        Package {
            name: "default".to_string(),
            git_repository: "empty".to_string(),
            dependencies: Vec::new(),
            formula: Formula { install_cmds: cmds },
        }
    }
}

} // verus!
