//! Region providers: how a store of regions hands out a region per
//! position, and the folder-backed provider's pure half — where region
//! files live and how their names are formed and parsed. Opening files and
//! listing directories is left to the embedding program.

use crate::position::{parse_region_filename, region_filename, RegionPosition};
use crate::region::Region;
use vstd::prelude::*;

verus! {

/// A store of regions, one per region position.
pub trait RegionProvider {
    /// Opens (or creates) the region at the given position.
    fn get_region(&self, region_pos: RegionPosition) -> Result<Region, std::io::Error>;
}

/// Names the folder in which region files live, one `r.<x>.<z>.mca` file
/// per region.
pub struct FolderRegionProvider<'a> {
    /// Folder where the region files are located.
    folder_path: &'a str,
}

impl<'a> FolderRegionProvider<'a> {
    /// The folder's path as this provider holds it.
    pub closed spec fn folder_view(self) -> Seq<char> {
        self.folder_path@
    }

    pub fn new(folder: &'a str) -> (r: FolderRegionProvider<'a>)
        ensures
            r.folder_view() == folder@,
    {
        FolderRegionProvider { folder_path: folder }
    }

    /// The folder this provider reads from and writes to.
    pub fn folder(&self) -> (r: &'a str)
        ensures
            r@ == self.folder_view(),
    {
        self.folder_path
    }

    /// The path of the region file for a position: the folder, a slash,
    /// and the region's file name.
    pub fn region_file_path(&self, pos: RegionPosition) -> (r: String)
        ensures
            r@ == self.folder_view() + seq!['/'] + region_filename(pos.x as int, pos.z as int),
    {
        let mut s = String::from_str(self.folder_path);
        proof {
            reveal_strlit("/");
        }
        s.append("/");
        let name = region_position_filename(pos);
        s.append(name.as_str());
        s
    }
}

/// The file name of a region at the given position: `r.<x>.<z>.mca`.
pub fn region_position_filename(pos: RegionPosition) -> (r: String)
    ensures
        r@ == region_filename(pos.x as int, pos.z as int),
{
    crate::position::region_position_filename(pos)
}

/// Parses a region file name into its two coordinates; `None` when the
/// name does not match `r.<x>.<z>.mca`.
pub fn parse_coords(filename: &str) -> (r: Option<(i32, i32)>)
    ensures
        match parse_region_filename(filename@) {
            Some(p) => r matches Some(q) && q.0 == p.0 && q.1 == p.1,
            None => r is None,
        },
{
    crate::position::parse_coords(filename)
}

/// Parses a region position from a file name, as directory iteration does;
/// names outside the grammar are invalid input.
pub fn region_pos_from_filename(filename: &str) -> (r: Result<RegionPosition, std::io::Error>)
    ensures
        match parse_region_filename(filename@) {
            Some(p) => r matches Ok(q) && q.x == p.0 && q.z == p.1,
            None => r is Err,
        },
{
    RegionPosition::from_filename(filename)
}

} // verus!
