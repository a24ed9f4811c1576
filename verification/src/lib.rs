//! The verified core of the `alladin-pcb` board editor.

pub mod area;
pub mod batch;
pub mod batch_laws;
pub mod board_doc;
pub mod bom;
pub mod cli;
pub mod command_laws;
pub mod copper_laws;
pub mod decimal;
pub mod dfm;
pub mod download_laws;
pub mod dxf_contour;
pub mod dxf_laws;
pub mod dxf_outline;
pub mod dxf_ring;
pub mod dxf_text;
pub mod easyeda;
pub mod external_router;
pub mod footprint;
pub mod geom;
pub mod import_laws;
pub mod item;
pub mod json;
pub mod kicad_export;
pub mod kicad_import;
pub mod lcsc;
pub mod lcsc_laws;
pub mod matrix;
pub mod mcp;
pub mod mcp_placement;
pub mod net_laws;
pub mod nets;
pub mod outline_laws;
pub mod output_laws;
pub mod own_pose;
pub mod part_laws;
pub mod parts;
pub mod pins;
pub mod placement;
pub mod placement_laws;
pub mod router_laws;
pub mod silk;
pub mod silk_laws;
pub mod soundness;
pub mod template_laws;
pub mod text;
pub mod text_laws;
pub mod vias;
pub mod wide;
pub mod wires;
pub mod world;
pub mod zone_laws;
pub mod zones;
