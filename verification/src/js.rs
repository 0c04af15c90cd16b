//! The JavaScript glue the bundle ships: the generated package-install
//! module, and the planned set of script files for the output directory.

use vstd::prelude::*;
use vstd::string::StringExecFns;

use crate::renv::{PackageView, RenvLock};

verus! {

/// A package name quoted for the generated install call.
pub open spec fn quoted(n: Seq<char>) -> Seq<char> {
    "\""@ + n + "\""@
}

/// The quoted names joined with commas, in order.
pub open spec fn quoted_list(names: Seq<Seq<char>>) -> Seq<char>
    decreases names.len(),
{
    if names.len() == 0 {
        Seq::<char>::empty()
    } else if names.len() == 1 {
        quoted(names[0])
    } else {
        quoted_list(names.drop_last()) + ", "@ + quoted(names.last())
    }
}

/// The names of the records of `s`, in order.
pub open spec fn pkg_names(s: Seq<PackageView>) -> Seq<Seq<char>> {
    s.map_values(|p: PackageView| p.name)
}

/// The whole generated install module for the given package names.
pub open spec fn install_command(names: Seq<Seq<char>>) -> Seq<char> {
    "export default async function installPackages(webR) {\nawait webR.evalRVoid(`webr::install(c("@
        + quoted_list(names)
        + "), repos=\"${window.location.href}/repo/\")`);\n}"@
}

/// Builds the JavaScript module that installs the bundled packages in
/// the browser, naming every package of the resolved set in order.
pub fn build_full_install_command(packages: &Vec<crate::renv::Package>) -> (r: String)
    ensures
        r@ == install_command(pkg_names(packages.deep_view())),
{
    let ghost names = pkg_names(packages.deep_view());
    let mut q = String::new();
    proof {
        assert(q@ =~= quoted_list(names.take(0)));
    }
    let n = packages.len();
    let mut i: usize = 0;
    while i < n
        invariant
            n == packages.len(),
            names == pkg_names(packages.deep_view()),
            names.len() == n,
            i <= n,
            q@ == quoted_list(names.take(i as int)),
        decreases n - i,
    {
        proof {
            assert(names.take(i as int + 1).drop_last() =~= names.take(i as int));
            assert(names.take(i as int + 1).last() == names[i as int]);
            assert(names[i as int] == packages.deep_view()[i as int].name);
        }
        if i > 0 {
            q.append(", ");
        }
        q.append("\"");
        let (name, _) = packages[i].get_package();
        q.append(name);
        q.append("\"");
        i += 1;
    }
    proof {
        assert(names.take(n as int) =~= names);
    }
    let mut r =
        "export default async function installPackages(webR) {\nawait webR.evalRVoid(`webr::install(c(".to_owned();
    r.append(q.as_str());
    r.append("), repos=\"${window.location.href}/repo/\")`);\n}");
    r
}

/// One planned script file of the output directory.
#[derive(Debug)]
pub struct JsFile {
    pub name: String,
    pub contents: String,
}

/// Plans the JavaScript files of the bundle: the two static scripts as
/// handed in, and the generated install module for the resolved set.
/// The caller writes each file under its name into the output directory.
pub fn write_javascript(renv_lock: &RenvLock, shiny_js: &str, serviceworker_js: &str) -> (r: Vec<
    JsFile,
>)
    ensures
        r.len() == 3,
        r[0].name@ == "shiny.js"@,
        r[0].contents@ == shiny_js@,
        r[1].name@ == "httpuv-serviceworker.js"@,
        r[1].contents@ == serviceworker_js@,
        r[2].name@ == "install_packages.js"@,
        r[2].contents@ == install_command(pkg_names(renv_lock@)),
{
    let command = build_full_install_command(renv_lock.packages());
    let mut files: Vec<JsFile> = Vec::new();
    files.push(JsFile { name: "shiny.js".to_owned(), contents: shiny_js.to_owned() });
    files.push(
        JsFile {
            name: "httpuv-serviceworker.js".to_owned(),
            contents: serviceworker_js.to_owned(),
        },
    );
    files.push(JsFile { name: "install_packages.js".to_owned(), contents: command });
    files
}

} // verus!
