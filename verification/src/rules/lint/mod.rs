pub mod deprecated_category_setup;
pub mod file_application;
pub mod duplicate_custom_id;
pub mod misplaced_heading;
pub mod obsolete_include_markup;
pub mod affiliated_keyword_placement;
pub mod misplaced_planning_info;
pub mod unclosed_block;
pub mod heading_level_gap;
pub mod invalid_image_alignment;
pub mod orphaned_affiliated_keywords;
pub mod orphaned_footnotes;
pub mod invalid_edna_syntax;
pub mod invalid_table_formula;
pub mod non_existent_setupfile;
