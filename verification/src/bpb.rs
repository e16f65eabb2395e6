//! The FAT16 BIOS parameter block and the volume layout it implies.

use vstd::prelude::*;

verus! {

/// Little-endian 16-bit value at `o` in `s`.
pub open spec fn le16(s: Seq<u8>, o: int) -> int {
    s[o] + 256 * s[o + 1]
}

/// Little-endian 32-bit value at `o` in `s`.
pub open spec fn le32(s: Seq<u8>, o: int) -> int {
    le16(s, o) + 65536 * le16(s, o + 2)
}

/// Boot sectors shorter than this are refused as not being a FAT volume.
pub const MIN_BOOT_LEN: usize = 64;

/// The fields of the BIOS parameter block that locate the root directory
/// and the data region.
#[derive(Debug, Clone, Copy, PartialEq, Eq)]
pub struct Bpb {
    pub bytes_per_sector: u32,
    pub sectors_per_cluster: u32,
    pub reserved_sectors: u32,
    pub num_fats: u32,
    pub root_entries: u32,
    pub sectors_per_fat: u32,
}

/// Why a boot sector was refused.
#[derive(Debug, Clone, Copy, PartialEq, Eq)]
pub enum BootError {
    /// The sector is too short or lacks the `0x55 0xAA` signature.
    MissingSignature,
}

/// A boot sector length on which the signature test can be made: either
/// too short to be considered, or long enough to hold bytes 510 and 511.
pub open spec fn boot_len_ok(len: int) -> bool {
    len < MIN_BOOT_LEN || len >= 512
}

/// The boot sector is accepted as a FAT volume.
pub open spec fn has_boot_signature(boot: Seq<u8>) -> bool {
    boot.len() >= 512 && boot[510] == 0x55 && boot[511] == 0xAA
}

impl Bpb {
    /// Field values as they can come out of a boot sector: 16-bit fields
    /// and 8-bit fields.
    pub open spec fn wf(&self) -> bool {
        &&& self.bytes_per_sector < 0x10000
        &&& self.sectors_per_cluster < 0x100
        &&& self.reserved_sectors < 0x10000
        &&& self.num_fats < 0x100
        &&& self.root_entries < 0x10000
        &&& self.sectors_per_fat < 0x10000
    }

    /// The parameter block read from the fixed offsets of a boot sector.
    pub open spec fn spec_from_boot(boot: Seq<u8>) -> Bpb {
        Bpb {
            bytes_per_sector: le16(boot, 11) as u32,
            sectors_per_cluster: boot[13] as u32,
            reserved_sectors: le16(boot, 14) as u32,
            num_fats: boot[16] as u32,
            root_entries: le16(boot, 17) as u32,
            sectors_per_fat: le16(boot, 22) as u32,
        }
    }

    pub open spec fn spec_root_dir_offset(&self) -> int {
        (self.reserved_sectors + self.num_fats * self.sectors_per_fat) * self.bytes_per_sector
    }

    pub open spec fn spec_root_dir_bytes(&self) -> int {
        self.root_entries * 32
    }

    pub open spec fn spec_data_region_offset(&self) -> int {
        self.spec_root_dir_offset() + self.spec_root_dir_bytes()
    }

    pub open spec fn spec_cluster_size(&self) -> int {
        self.bytes_per_sector * self.sectors_per_cluster
    }

    /// Clusters are numbered from 2: cluster 2 starts the data region.
    pub open spec fn spec_cluster_offset(&self, cluster: int) -> int {
        self.spec_data_region_offset() + (cluster - 2) * self.spec_cluster_size()
    }

    /// Reads the parameter block from a boot sector.
    pub fn parse(boot: &[u8]) -> (res: Result<Bpb, BootError>)
        requires
            boot_len_ok(boot@.len() as int),
        ensures
            res is Ok <==> has_boot_signature(boot@),
            res matches Ok(b) ==> b == Bpb::spec_from_boot(boot@) && b.wf(),
            res matches Err(e) ==> e == BootError::MissingSignature,
    {
        if boot.len() < MIN_BOOT_LEN || boot[510] != 0x55 || boot[511] != 0xAA {
            return Err(BootError::MissingSignature);
        }
        let b = Bpb {
            bytes_per_sector: read_le16(boot, 11),
            sectors_per_cluster: boot[13] as u32,
            reserved_sectors: read_le16(boot, 14),
            num_fats: boot[16] as u32,
            root_entries: read_le16(boot, 17),
            sectors_per_fat: read_le16(boot, 22),
        };
        Ok(b)
    }

    /// Byte offset of the root directory: after the reserved sectors and
    /// all copies of the FAT.
    pub fn root_dir_offset(&self) -> (r: u64)
        requires
            self.wf(),
        ensures
            r == self.spec_root_dir_offset(),
    {
        proof {
            self.lemma_bounds();
        }
        let root_start_sector = self.reserved_sectors + self.num_fats * self.sectors_per_fat;
        root_start_sector as u64 * self.bytes_per_sector as u64
    }

    /// Size in bytes of the root directory: 32 bytes per entry.
    pub fn root_dir_bytes(&self) -> (r: u64)
        requires
            self.wf(),
        ensures
            r == self.spec_root_dir_bytes(),
    {
        self.root_entries as u64 * 32
    }

    /// Byte offset of the data region, which follows the root directory.
    pub fn data_region_offset(&self) -> (r: u64)
        requires
            self.wf(),
        ensures
            r == self.spec_data_region_offset(),
    {
        proof {
            self.lemma_bounds();
        }
        self.root_dir_offset() + self.root_dir_bytes()
    }

    /// Size in bytes of one cluster.
    pub fn cluster_size(&self) -> (r: u64)
        requires
            self.wf(),
        ensures
            r == self.spec_cluster_size(),
    {
        proof {
            self.lemma_bounds();
        }
        self.bytes_per_sector as u64 * self.sectors_per_cluster as u64
    }

    /// Byte offset of the start of a cluster; clusters are numbered from 2.
    pub fn cluster_offset(&self, cluster: u32) -> (r: u64)
        requires
            self.wf(),
            cluster >= 2,
        ensures
            r == self.spec_cluster_offset(cluster as int),
    {
        proof {
            self.lemma_bounds();
            self.lemma_cluster_bound(cluster as int);
        }
        self.data_region_offset() + (cluster as u64 - 2) * self.cluster_size()
    }

    proof fn lemma_bounds(&self)
        requires
            self.wf(),
        ensures
            0 <= self.reserved_sectors + self.num_fats * self.sectors_per_fat <= 0x10000 * 0x100,
            0 <= self.spec_root_dir_offset() <= 0x10000 * 0x100 * 0x10000,
            0 <= self.spec_root_dir_bytes() < 0x10000 * 32,
            0 <= self.spec_cluster_size() <= 0x10000 * 0x100,
    {
        let r = self.reserved_sectors as int;
        let f = self.num_fats as int;
        let s = self.sectors_per_fat as int;
        let b = self.bytes_per_sector as int;
        let c = self.sectors_per_cluster as int;
        assert(0 <= f * s <= 0xff * 0xffff) by (nonlinear_arith)
            requires
                0 <= f < 0x100,
                0 <= s < 0x10000,
        ;
        let t = r + f * s;
        assert(0 <= t * b <= 0x10000 * 0x100 * 0x10000) by (nonlinear_arith)
            requires
                0 <= t <= 0x10000 * 0x100,
                0 <= b < 0x10000,
        ;
        assert(0 <= b * c <= 0x10000 * 0x100) by (nonlinear_arith)
            requires
                0 <= b < 0x10000,
                0 <= c < 0x100,
        ;
    }

    proof fn lemma_cluster_bound(&self, cluster: int)
        requires
            self.wf(),
            2 <= cluster < 0x1_0000_0000,
        ensures
            0 <= (cluster - 2) * self.spec_cluster_size() <= 0x1_0000_0000 * 0x10000 * 0x100,
    {
        self.lemma_bounds();
        let k = cluster - 2;
        let z = self.spec_cluster_size();
        assert(0 <= k * z <= 0x1_0000_0000 * 0x10000 * 0x100) by (nonlinear_arith)
            requires
                0 <= k < 0x1_0000_0000,
                0 <= z <= 0x10000 * 0x100,
        ;
    }
}

/// Little-endian 16-bit field of a byte slice.
fn read_le16(s: &[u8], o: usize) -> (r: u32)
    requires
        o + 1 < s@.len(),
    ensures
        r == le16(s@, o as int),
        r < 0x10000,
{
    s[o] as u32 + 256 * s[o + 1] as u32
}

} // verus!
