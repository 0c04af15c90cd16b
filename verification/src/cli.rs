//! The command surface: plain argument records for the build and serve
//! operations. Argument parsing itself happens outside the library and
//! hands in these values.

use vstd::prelude::*;

verus! {

/// Arguments of the build operation.
#[derive(Debug)]
pub struct BuildArgs {
    pub appdir: String,
    pub outdir: String,
    pub parallel: usize,
}

impl BuildArgs {
    /// Bundles the three build inputs.
    pub fn new(appdir: String, outdir: String, parallel: usize) -> (r: Self)
        ensures
            r.appdir@ == appdir@,
            r.outdir@ == outdir@,
            r.parallel == parallel,
    {
        BuildArgs { appdir, outdir, parallel }
    }

    /// Directory of the application to bundle.
    pub fn appdir(&self) -> (r: &str)
        ensures
            r@ == self.appdir@,
    {
        self.appdir.as_str()
    }

    /// Directory the bundle is written into.
    pub fn outdir(&self) -> (r: &str)
        ensures
            r@ == self.outdir@,
    {
        self.outdir.as_str()
    }

    /// How many package downloads may run at once.
    pub fn parallel(&self) -> (r: usize)
        ensures
            r == self.parallel,
    {
        self.parallel
    }
}

/// Arguments of the serve operation.
#[derive(Debug)]
pub struct ServeArgs {
    pub outdir: String,
    pub port: u16,
}

impl ServeArgs {
    /// Bundles the two serve inputs.
    pub fn new(outdir: String, port: u16) -> (r: Self)
        ensures
            r.outdir@ == outdir@,
            r.port == port,
    {
        ServeArgs { outdir, port }
    }

    /// Directory holding the bundle to serve.
    pub fn outdir(&self) -> (r: &str)
        ensures
            r@ == self.outdir@,
    {
        self.outdir.as_str()
    }

    /// Port the server binds to.
    pub fn port(&self) -> (r: u16)
        ensures
            r == self.port,
    {
        self.port
    }
}

/// The operation asked for.
#[derive(Debug)]
pub enum Command {
    /// Bundle the application in the given directory.
    Build(BuildArgs),
    /// Bundle and serve the application in the given directory.
    Serve(ServeArgs),
}

/// The whole command line, as plain values.
#[derive(Debug)]
pub struct Args {
    pub command: Command,
}

impl Args {
    /// Wraps a parsed command.
    pub fn new(command: Command) -> (r: Self)
        ensures
            r.command == command,
    {
        Args { command }
    }

    /// The operation asked for.
    pub fn command(&self) -> (r: &Command)
        ensures
            r == self.command,
    {
        &self.command
    }
}

} // verus!
