//! Deciding whether a symbolic link may be created at a path.

use vstd::prelude::*;

verus! {

/// Why no link is created at a path.
#[derive(Clone, Copy, Debug, PartialEq, Eq, Structural)]
pub enum LinkRefusal {
    /// A directory is at the path.
    Directory,
    /// A file is at the path.
    File,
    /// A link is at the path and may not be replaced.
    Link,
}

/// What is found at the path where a link is to be created.
#[derive(Clone, Copy, Debug, PartialEq, Eq, Structural)]
pub struct LinkSite {
    /// Something is at the path, followed through links.
    pub exists: bool,
    /// What is at the path, followed through links, is a directory.
    pub is_dir: bool,
    /// What is at the path, followed through links, is a file.
    pub is_file: bool,
    /// The path itself is a link.
    pub is_symlink: bool,
}

/// Whether a link may be created at the site, and whether a link that is
/// there is removed first. A directory or a file at the path refuses the
/// link; a link at the path is removed first where that is allowed, and
/// refuses the link where it is not.
pub open spec fn link_plan(site: LinkSite, replace: bool) -> Result<bool, LinkRefusal> {
    if site.exists && site.is_dir {
        Err(LinkRefusal::Directory)
    } else if site.exists && site.is_file {
        Err(LinkRefusal::File)
    } else if site.is_symlink {
        if replace {
            Ok(true)
        } else {
            Err(LinkRefusal::Link)
        }
    } else {
        Ok(false)
    }
}

/// Decides whether a link may be created at the site; `Ok(true)` asks to
/// remove the link that is there first.
pub fn plan_symlink(site: LinkSite, replace: bool) -> (plan: Result<bool, LinkRefusal>)
    ensures
        plan == link_plan(site, replace),
{
    if site.exists && site.is_dir {
        Err(LinkRefusal::Directory)
    } else if site.exists && site.is_file {
        Err(LinkRefusal::File)
    } else if site.is_symlink {
        if replace {
            Ok(true)
        } else {
            Err(LinkRefusal::Link)
        }
    } else {
        Ok(false)
    }
}

} // verus!
